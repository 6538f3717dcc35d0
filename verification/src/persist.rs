use vstd::prelude::*;

use crate::orderbook::Order;

verus! {

/// A state-changing fact handed to the durable store's worker. The matcher
/// emits one `NewOrder` per order that actually rests, one `OrderDeleted`
/// per successful cancel, and one `TradeExecuted` per trade.
#[derive(Debug, Clone)]
pub enum PersistEvent {
    NewOrder(Order),
    OrderFilled { order_id: u32, traded_qty: u32 },
    OrderDeleted { order_id: u32 },
    TradeExecuted {
        trade_id: [u8; 16],
        price: u32,
        quantity: u32,
        maker_order_id: u32,
        taker_order_id: u32,
        timestamp: i64,
    },
}

} // verus!
