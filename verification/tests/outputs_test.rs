use clob_engine::outputs::{CreateOrderResponse, DeleteOrderResponse};

#[test]
fn responses_carry_plain_fields() {
    let c = CreateOrderResponse { order_id: "17".to_string() };
    assert_eq!(c.order_id, "17");
    let d = DeleteOrderResponse { filled_qty: 3, average_price: 101 };
    assert_eq!(d.filled_qty, 3);
    assert_eq!(d.average_price, 101);
}
