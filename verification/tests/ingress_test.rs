use clob_engine::events::OrderEvent;
use clob_engine::ingress::IngressQueue;
use clob_engine::inputs::Side;

fn new_order(order_id: u32) -> OrderEvent {
    OrderEvent::NewOrder { order_id, user_id: 1, price: 100, quantity: 1, side: Side::Buy }
}

#[test]
fn push_at_exact_capacity_is_rejected() {
    let mut q = IngressQueue::new(4);
    for i in 0..4u32 {
        assert!(q.try_push(new_order(i)));
    }
    assert_eq!(q.len(), 4);
    assert!(!q.try_push(new_order(99)));
    assert_eq!(q.len(), 4);
    // Draining one makes room for exactly one more.
    assert!(q.try_pop().is_some());
    assert!(q.try_push(new_order(100)));
    assert!(!q.try_push(new_order(101)));
}

#[test]
fn pop_preserves_submission_order() {
    let mut q = IngressQueue::new(8);
    for i in 0..5u32 {
        assert!(q.try_push(new_order(i)));
    }
    for i in 0..5u32 {
        match q.try_pop() {
            Some(OrderEvent::NewOrder { order_id, .. }) => assert_eq!(order_id, i),
            other => panic!("unexpected pop result {:?}", other),
        }
    }
    assert!(q.try_pop().is_none());
    assert!(q.is_empty());
}

#[test]
fn capacity_is_reported() {
    let q = IngressQueue::new(65536);
    assert_eq!(q.capacity(), 65536);
    assert!(q.is_empty());
}
