use clob_engine::inputs::Side;
use clob_engine::orderbook::{Order, OrderBook};
use clob_engine::persist::PersistEvent;

fn order(order_id: u32, price: u32, quantity: u32, side: Side) -> Order {
    Order { order_id, user_id: 10 * order_id, price, quantity, side }
}

fn depth_rows(rows: &[[u32; 2]]) -> Vec<[u32; 2]> {
    rows.to_vec()
}

#[test]
fn passive_rest_populates_bids() {
    // Empty book; a buy order rests untouched and bumps the depth id once.
    let mut book = OrderBook::new();
    let out = book.match_limit_order(order(1, 100, 5, Side::Buy));
    assert_eq!(out.frames.len(), 0);
    assert_eq!(out.events.len(), 1);
    match &out.events[0] {
        PersistEvent::NewOrder(o) => {
            assert_eq!(o.order_id, 1);
            assert_eq!(o.price, 100);
            assert_eq!(o.quantity, 5);
        }
        other => panic!("expected NewOrder, got {:?}", other),
    }
    let depth = book.get_depth(20);
    assert_eq!(depth.bids, depth_rows(&[[100, 5]]));
    assert_eq!(depth.asks, depth_rows(&[]));
    assert_eq!(depth.last_update_id, "1");
}

#[test]
fn exact_match_fully_fills() {
    // A sell for the exact resting quantity trades once and clears the book.
    let mut book = OrderBook::new();
    book.match_limit_order(order(1, 100, 5, Side::Buy));
    let trades_before = book.trades.len();
    assert_eq!(trades_before, 0);
    let rested = book.match_limit_order_at(order(2, 100, 5, Side::Sell), 777);
    assert_eq!(rested, 0);
    assert_eq!(book.trades.len(), 1);
    let t = book.trades[0];
    assert_eq!(t.msg_type, 1);
    assert_eq!(t.price, 100);
    assert_eq!(t.quantity, 5);
    assert_eq!(t.maker_order_id, 1);
    assert_eq!(t.taker_order_id, 2);
    assert_eq!(t.timestamp, 777);
    let (frames, events) = book.flush_trades();
    assert_eq!(frames.len(), 1);
    assert_eq!(events.len(), 1);
    assert!(matches!(events[0], PersistEvent::TradeExecuted { .. }));
    let depth = book.get_depth(20);
    assert!(depth.bids.is_empty());
    assert!(depth.asks.is_empty());
}

#[test]
fn partial_taker_rests_residual() {
    // Asks at 100x3 and 101x2; a buy for 10 at 102 takes both and rests 5.
    let mut book = OrderBook::new();
    book.match_limit_order_at(order(1, 100, 3, Side::Sell), 0);
    book.match_limit_order_at(order(2, 101, 2, Side::Sell), 0);
    let remaining = book.match_limit_order_at(order(3, 102, 10, Side::Buy), 5);
    assert_eq!(remaining, 5);
    assert_eq!(book.trades.len(), 2);
    assert_eq!(book.trades[0].price, 100);
    assert_eq!(book.trades[0].quantity, 3);
    assert_eq!(book.trades[0].maker_order_id, 1);
    assert_eq!(book.trades[0].taker_order_id, 3);
    assert_eq!(book.trades[1].price, 101);
    assert_eq!(book.trades[1].quantity, 2);
    assert_eq!(book.trades[1].maker_order_id, 2);
    book.flush_trades();
    let depth = book.get_depth(20);
    assert_eq!(depth.bids, depth_rows(&[[102, 5]]));
    assert_eq!(depth.asks, depth_rows(&[]));
}

#[test]
fn price_time_priority_within_level() {
    // Two buys at 100; a sell for 4 fills the earlier one whole first.
    let mut book = OrderBook::new();
    book.match_limit_order_at(order(1, 100, 2, Side::Buy), 0);
    book.match_limit_order_at(order(2, 100, 3, Side::Buy), 0);
    let remaining = book.match_limit_order_at(order(3, 100, 4, Side::Sell), 0);
    assert_eq!(remaining, 0);
    assert_eq!(book.trades.len(), 2);
    assert_eq!(book.trades[0].maker_order_id, 1);
    assert_eq!(book.trades[0].quantity, 2);
    assert_eq!(book.trades[1].maker_order_id, 2);
    assert_eq!(book.trades[1].quantity, 2);
    book.flush_trades();
    let depth = book.get_depth(20);
    assert_eq!(depth.bids, depth_rows(&[[100, 1]]));
}

#[test]
fn cancel_before_match_leaves_no_cross() {
    // Cancelling the resting bid lets an equal-priced sell rest on asks.
    let mut book = OrderBook::new();
    book.match_limit_order_at(order(1, 100, 5, Side::Buy), 0);
    assert!(book.delete_order(1));
    let depth = book.get_depth(20);
    assert!(depth.bids.is_empty());
    assert!(depth.asks.is_empty());
    let remaining = book.match_limit_order_at(order(2, 100, 5, Side::Sell), 0);
    assert_eq!(remaining, 5);
    assert_eq!(book.trades.len(), 0);
    let depth = book.get_depth(20);
    assert!(depth.bids.is_empty());
    assert_eq!(depth.asks, depth_rows(&[[100, 5]]));
}

#[test]
fn fully_filled_level_is_reaped() {
    // Two ask levels; consuming the best whole leaves the next best on top.
    let mut book = OrderBook::new();
    book.match_limit_order_at(order(1, 100, 5, Side::Sell), 0);
    book.match_limit_order_at(order(2, 101, 7, Side::Sell), 0);
    let remaining = book.match_limit_order_at(order(3, 100, 5, Side::Buy), 0);
    assert_eq!(remaining, 0);
    book.flush_trades();
    let depth = book.get_depth(20);
    assert_eq!(depth.asks, depth_rows(&[[101, 7]]));
}

#[test]
fn cancel_unknown_id_is_noop_and_repeatable() {
    // Cancel of a non-existent id returns false, again and again.
    let mut book = OrderBook::new();
    assert!(!book.delete_order(99));
    assert!(!book.delete_order(99));
    book.match_limit_order_at(order(1, 100, 5, Side::Buy), 0);
    assert!(book.delete_order(1));
    assert!(!book.delete_order(1));
    assert!(!book.delete_order(1));
}

#[test]
fn depth_id_monotone_across_operations() {
    let mut book = OrderBook::new();
    let mut last: u64 = 0;
    for i in 1..=5u32 {
        book.match_limit_order_at(order(i, 100 + i, 1, Side::Buy), 0);
        book.flush_trades();
        let d = book.get_depth(20);
        let id: u64 = d.last_update_id.parse().unwrap();
        assert!(id >= last);
        last = id;
    }
    book.delete_order(3);
    let d = book.get_depth(20);
    let id: u64 = d.last_update_id.parse().unwrap();
    assert!(id >= last);
}

#[test]
fn conservation_of_taker_quantity() {
    // The taker's quantity is split exactly between trades and residual.
    let mut book = OrderBook::new();
    book.match_limit_order_at(order(1, 100, 3, Side::Sell), 0);
    book.match_limit_order_at(order(2, 101, 4, Side::Sell), 0);
    book.match_limit_order_at(order(3, 103, 6, Side::Sell), 0);
    let taker_qty: u32 = 9;
    let remaining = book.match_limit_order_at(order(4, 101, taker_qty, Side::Buy), 0);
    let traded: u32 = book.trades.iter().map(|t| t.quantity).sum();
    assert_eq!(traded + remaining, taker_qty);
    assert_eq!(traded, 7);
    assert_eq!(remaining, 2);
}

#[test]
fn trades_listed_best_price_first() {
    let mut book = OrderBook::new();
    book.match_limit_order_at(order(1, 105, 2, Side::Sell), 0);
    book.match_limit_order_at(order(2, 103, 2, Side::Sell), 0);
    book.match_limit_order_at(order(3, 104, 2, Side::Sell), 0);
    book.match_limit_order_at(order(4, 105, 6, Side::Buy), 0);
    let prices: Vec<u32> = book.trades.iter().map(|t| t.price).collect();
    assert_eq!(prices, vec![103, 104, 105]);
}

#[test]
fn get_depth_respects_limit() {
    let mut book = OrderBook::new();
    for i in 0..25u32 {
        book.match_limit_order_at(order(i + 1, 1000 + i, 1, Side::Sell), 0);
    }
    let depth = book.get_depth(3);
    assert_eq!(depth.asks.len(), 3);
    assert_eq!(depth.asks[0], [1000, 1]);
    assert_eq!(depth.asks[1], [1001, 1]);
    assert_eq!(depth.asks[2], [1002, 1]);
    let depth = book.get_depth(20);
    assert_eq!(depth.asks.len(), 20);
}

#[test]
fn unchanged_book_republishes_identical_depth() {
    // Two reads that observe the same id see identical rows.
    let mut book = OrderBook::new();
    book.match_limit_order_at(order(1, 100, 5, Side::Buy), 0);
    book.match_limit_order_at(order(2, 103, 2, Side::Sell), 0);
    let d1 = book.get_depth(20);
    let d2 = book.get_depth(20);
    assert_eq!(d1.last_update_id, d2.last_update_id);
    assert_eq!(d1.bids, d2.bids);
    assert_eq!(d1.asks, d2.asks);
}
