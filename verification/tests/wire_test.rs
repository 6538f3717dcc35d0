use clob_engine::wire::{decode_trade_msg, encode_trade_msg, TradeMsg, TRADE_MSG_LEN};

#[test]
fn encode_produces_little_endian_layout() {
    let m = TradeMsg {
        msg_type: 1,
        price: 0x01020304,
        quantity: 0x0A0B0C0D,
        maker_order_id: 7,
        taker_order_id: 9,
        timestamp: 0x1122334455667788,
    };
    let b = encode_trade_msg(&m);
    assert_eq!(b.len(), TRADE_MSG_LEN);
    assert_eq!(b[0], 1);
    assert_eq!(&b[1..5], &[0x04, 0x03, 0x02, 0x01]);
    assert_eq!(&b[5..9], &[0x0D, 0x0C, 0x0B, 0x0A]);
    assert_eq!(&b[9..13], &[7, 0, 0, 0]);
    assert_eq!(&b[13..17], &[9, 0, 0, 0]);
    assert_eq!(&b[17..25], &[0x88, 0x77, 0x66, 0x55, 0x44, 0x33, 0x22, 0x11]);
}

#[test]
fn round_trip_is_byte_exact() {
    let m = TradeMsg {
        msg_type: 1,
        price: 4_294_967_295,
        quantity: 1,
        maker_order_id: 123_456,
        taker_order_id: 654_321,
        timestamp: 1_700_000_000_123,
    };
    let b = encode_trade_msg(&m);
    let back = decode_trade_msg(&b).expect("full frame must decode");
    assert_eq!(back, m);
    assert_eq!(encode_trade_msg(&back), b);
}

#[test]
fn round_trip_negative_timestamp() {
    let m = TradeMsg {
        msg_type: 1,
        price: 50,
        quantity: 2,
        maker_order_id: 1,
        taker_order_id: 2,
        timestamp: -1,
    };
    let back = decode_trade_msg(&encode_trade_msg(&m)).unwrap();
    assert_eq!(back, m);
    let m = TradeMsg { timestamp: i64::MIN, ..m };
    let back = decode_trade_msg(&encode_trade_msg(&m)).unwrap();
    assert_eq!(back, m);
    let m = TradeMsg { timestamp: i64::MAX, ..m };
    let back = decode_trade_msg(&encode_trade_msg(&m)).unwrap();
    assert_eq!(back, m);
}

#[test]
fn decode_rejects_wrong_length() {
    assert!(decode_trade_msg(&[]).is_none());
    assert!(decode_trade_msg(&[0u8; 24]).is_none());
    assert!(decode_trade_msg(&[0u8; 26]).is_none());
    assert!(decode_trade_msg(&[0u8; 25]).is_some());
}
