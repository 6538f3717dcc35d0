use clob_engine::events::OrderEvent;
use clob_engine::inputs::{CreateOrderInput, Side};
use clob_engine::msgpack::MsgPack;
use clob_engine::routes::{header_names_msgpack, new_order_event, parse_order_id};

#[test]
fn msgpack_content_negotiation() {
    assert!(header_names_msgpack(b"application/msgpack"));
    assert!(header_names_msgpack(b"msgpack"));
    assert!(header_names_msgpack(b"text/plain, application/msgpack; q=0.9"));
    assert!(!header_names_msgpack(b"application/json"));
    assert!(!header_names_msgpack(b""));
    assert!(!header_names_msgpack(b"msgpac"));
    assert!(!header_names_msgpack(b"MSGPACK"));
}

#[test]
fn order_id_parsing_matches_unwrap_or_zero() {
    assert_eq!(parse_order_id(b"123"), 123);
    assert_eq!(parse_order_id(b"+42"), 42);
    assert_eq!(parse_order_id(b"0"), 0);
    assert_eq!(parse_order_id(b"00012"), 12);
    assert_eq!(parse_order_id(b"4294967295"), u32::MAX);
    assert_eq!(parse_order_id(b"4294967296"), 0);
    assert_eq!(parse_order_id(b"99999999999999999999"), 0);
    assert_eq!(parse_order_id(b""), 0);
    assert_eq!(parse_order_id(b"+"), 0);
    assert_eq!(parse_order_id(b"12a"), 0);
    assert_eq!(parse_order_id(b"-5"), 0);
}

#[test]
fn ingress_event_carries_the_assigned_id() {
    let input = CreateOrderInput { price: 100, quantity: 7, user_id: 55, side: Side::Sell };
    let e = new_order_event(&input, 31);
    assert_eq!(
        e,
        OrderEvent::NewOrder { order_id: 31, user_id: 55, price: 100, quantity: 7, side: Side::Sell }
    );
}

#[test]
fn msgpack_wrapper_hands_back_its_value() {
    let input = CreateOrderInput { price: 1, quantity: 2, user_id: 3, side: Side::Buy };
    let wrapped = MsgPack(input);
    assert_eq!(wrapped.into_inner(), input);
}
