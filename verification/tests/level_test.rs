use clob_engine::inputs::Side;
use clob_engine::orderbook::{Order, PriceLevel};

fn order(order_id: u32, quantity: u32) -> Order {
    Order { order_id, user_id: 1, price: 100, quantity, side: Side::Buy }
}

#[test]
fn push_accumulates_total() {
    let mut level = PriceLevel::new(100);
    assert!(level.is_empty());
    level.push(&order(1, 5));
    level.push(&order(2, 7));
    assert_eq!(level.total_qty, 12);
    assert!(!level.is_empty());
}

#[test]
fn remove_at_is_idempotent_per_entry() {
    let mut level = PriceLevel::new(100);
    level.push(&order(1, 5));
    level.push(&order(2, 7));
    level.remove_at(0);
    assert_eq!(level.total_qty, 7);
    // Removing a tombstoned entry again subtracts nothing.
    level.remove_at(0);
    assert_eq!(level.total_qty, 7);
}

#[test]
fn all_tombstoned_level_has_zero_total() {
    let mut level = PriceLevel::new(100);
    level.push(&order(1, 5));
    level.push(&order(2, 7));
    level.remove_at(0);
    level.remove_at(1);
    assert_eq!(level.total_qty, 0);
    assert!(level.is_empty());
}

#[test]
fn reduce_at_shrinks_total_by_difference() {
    let mut level = PriceLevel::new(100);
    level.push(&order(1, 10));
    level.reduce_at(0, 4);
    assert_eq!(level.total_qty, 4);
    assert_eq!(level.entries[0].quantity, 4);
    assert!(!level.entries[0].tombstone);
}
