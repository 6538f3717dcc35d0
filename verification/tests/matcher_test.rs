use clob_engine::events::OrderEvent;
use clob_engine::inputs::Side;
use clob_engine::matching_loop::{Matcher, RejectReason, DEPTH_PUBLISH_EVERY, IDLE_SPIN_ITERATIONS};
use clob_engine::persist::PersistEvent;

fn new_order(order_id: u32, price: u32, quantity: u32, side: Side) -> OrderEvent {
    OrderEvent::NewOrder { order_id, user_id: 1, price, quantity, side }
}

#[test]
fn zero_quantity_taker_never_reaches_the_book() {
    let mut m = Matcher::new();
    let out = m.on_event(new_order(1, 100, 0, Side::Buy));
    assert_eq!(out.rejected, Some(RejectReason::ZeroQuantity));
    assert!(out.events.is_empty());
    assert!(out.frames.is_empty());
    // The book is untouched: a later sell at the same price rests.
    let out = m.on_event(new_order(2, 100, 3, Side::Sell));
    assert_eq!(out.rejected, None);
    assert_eq!(out.events.len(), 1);
    assert!(matches!(out.events[0], PersistEvent::NewOrder(_)));
}

#[test]
fn duplicate_order_id_is_rejected() {
    let mut m = Matcher::new();
    assert_eq!(m.on_event(new_order(7, 100, 5, Side::Buy)).rejected, None);
    let out = m.on_event(new_order(7, 101, 5, Side::Buy));
    assert_eq!(out.rejected, Some(RejectReason::DuplicateOrderId));
}

#[test]
fn level_overflow_is_rejected() {
    let mut m = Matcher::new();
    assert_eq!(m.on_event(new_order(1, 100, u32::MAX, Side::Buy)).rejected, None);
    let out = m.on_event(new_order(2, 100, 1, Side::Buy));
    assert_eq!(out.rejected, Some(RejectReason::LevelFull));
}

#[test]
fn delete_event_emits_persistence_record() {
    let mut m = Matcher::new();
    m.on_event(new_order(5, 100, 2, Side::Sell));
    let out = m.on_event(OrderEvent::DeleteOrder { order_id: 5 });
    assert_eq!(out.events.len(), 1);
    assert!(matches!(out.events[0], PersistEvent::OrderDeleted { order_id: 5 }));
    // Deleting again is a silent no-op.
    let out = m.on_event(OrderEvent::DeleteOrder { order_id: 5 });
    assert!(out.events.is_empty());
}

#[test]
fn depth_published_every_hundred_events() {
    let mut m = Matcher::new();
    let mut published = 0u32;
    let total = 2 * DEPTH_PUBLISH_EVERY as u32;
    for i in 0..total {
        let out = m.on_event(new_order(i + 1, 1000 + (i % 50), 1, Side::Buy));
        if out.publish.is_some() {
            published += 1;
            assert_eq!((i + 1) % DEPTH_PUBLISH_EVERY as u32, 0);
        }
    }
    assert_eq!(published, 2);
}

#[test]
fn idle_edge_publishes_and_long_idle_yields() {
    let mut m = Matcher::new();
    m.on_event(new_order(1, 100, 5, Side::Buy));
    // First empty observation of the streak publishes.
    let act = m.on_idle();
    assert!(act.publish.is_some());
    assert!(!act.yield_now);
    let d = act.publish.unwrap();
    assert_eq!(d.bids, vec![[100u32, 5u32]]);
    // The rest of the streak spins silently until the yield threshold.
    let mut yielded = 0u32;
    for i in 2..=IDLE_SPIN_ITERATIONS {
        let act = m.on_idle();
        assert!(act.publish.is_none());
        if act.yield_now {
            yielded += 1;
            assert_eq!(i, IDLE_SPIN_ITERATIONS);
        }
    }
    assert_eq!(yielded, 1);
    // After the yield the counter restarts: the next idle is an edge again.
    let act = m.on_idle();
    assert!(act.publish.is_some());
}

#[test]
fn published_ids_never_decrease() {
    let mut m = Matcher::new();
    let mut last: u64 = 0;
    for round in 0..3u32 {
        for i in 0..DEPTH_PUBLISH_EVERY as u32 {
            let id = 1 + round * DEPTH_PUBLISH_EVERY as u32 + i;
            let out = m.on_event(new_order(id, 500 + (id % 7), 1, Side::Sell));
            if let Some(d) = out.publish {
                let n: u64 = d.last_update_id.parse().unwrap();
                assert!(n >= last);
                last = n;
            }
        }
    }
    assert!(last > 0);
}
