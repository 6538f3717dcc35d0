use vstd::bytes::{
    spec_u32_from_le_bytes, spec_u32_to_le_bytes, spec_u64_from_le_bytes, spec_u64_to_le_bytes,
    lemma_auto_spec_u32_to_from_le_bytes, lemma_auto_spec_u64_to_from_le_bytes, u32_from_le_bytes,
    u32_to_le_bytes, u64_from_le_bytes, u64_to_le_bytes,
};
use vstd::prelude::*;
use vstd::slice::slice_subrange;

verus! {

/// The wire record broadcast to live subscribers, one per trade: a tag byte
/// followed by the trade's fields, every integer little-endian.
#[derive(Clone, Copy, Debug, PartialEq, Eq, Structural)]
pub struct TradeMsg {
    pub msg_type: u8,
    pub price: u32,
    pub quantity: u32,
    pub maker_order_id: u32,
    pub taker_order_id: u32,
    pub timestamp: i64,
}

/// Encoded length of a `TradeMsg`: one tag byte, four 4-byte fields, one
/// 8-byte field.
pub const TRADE_MSG_LEN: usize = 25;

/// The two's-complement image of a millisecond timestamp, so that the wire
/// format can carry it as an unsigned little-endian word.
pub open spec fn ts_bits(t: i64) -> u64 {
    if t >= 0 {
        t as u64
    } else {
        ((t as int) + 0x1_0000_0000_0000_0000) as u64
    }
}

/// Inverse of `ts_bits`.
pub open spec fn ts_of_bits(u: u64) -> i64 {
    if u < 0x8000_0000_0000_0000 {
        u as i64
    } else {
        ((u as int) - 0x1_0000_0000_0000_0000) as i64
    }
}

pub proof fn lemma_ts_bits_round_trip(t: i64)
    ensures
        ts_of_bits(ts_bits(t)) == t,
{
}

/// The byte image of a trade message on the wire.
pub open spec fn spec_encode_trade_msg(m: TradeMsg) -> Seq<u8> {
    seq![m.msg_type] + spec_u32_to_le_bytes(m.price) + spec_u32_to_le_bytes(m.quantity)
        + spec_u32_to_le_bytes(m.maker_order_id) + spec_u32_to_le_bytes(m.taker_order_id)
        + spec_u64_to_le_bytes(ts_bits(m.timestamp))
}

/// The trade message read back from a full-length byte image.
pub open spec fn spec_decode_trade_msg(b: Seq<u8>) -> TradeMsg {
    TradeMsg {
        msg_type: b[0],
        price: spec_u32_from_le_bytes(b.subrange(1, 5)),
        quantity: spec_u32_from_le_bytes(b.subrange(5, 9)),
        maker_order_id: spec_u32_from_le_bytes(b.subrange(9, 13)),
        taker_order_id: spec_u32_from_le_bytes(b.subrange(13, 17)),
        timestamp: ts_of_bits(spec_u64_from_le_bytes(b.subrange(17, 25))),
    }
}

/// Exec image of `ts_bits`, kept within checked arithmetic.
fn ts_bits_exec(t: i64) -> (u: u64)
    ensures
        u == ts_bits(t),
{
    if t >= 0 {
        t as u64
    } else {
        let dist: u64 = (-(t + 1)) as u64;
        0xffff_ffff_ffff_ffffu64 - dist
    }
}

/// Exec image of `ts_of_bits`, kept within checked arithmetic.
fn ts_of_bits_exec(u: u64) -> (t: i64)
    ensures
        t == ts_of_bits(u),
{
    if u < 0x8000_0000_0000_0000 {
        u as i64
    } else {
        let dist: i64 = (0xffff_ffff_ffff_ffffu64 - u) as i64;
        -1i64 - dist
    }
}

/// Serializes one trade message to its wire image.
pub fn encode_trade_msg(m: &TradeMsg) -> (out: Vec<u8>)
    ensures
        out@ == spec_encode_trade_msg(*m),
        out@.len() == TRADE_MSG_LEN,
{
    proof {
        lemma_auto_spec_u32_to_from_le_bytes();
        lemma_auto_spec_u64_to_from_le_bytes();
    }
    let mut out: Vec<u8> = Vec::new();
    out.push(m.msg_type);
    let mut price = u32_to_le_bytes(m.price);
    out.append(&mut price);
    let mut quantity = u32_to_le_bytes(m.quantity);
    out.append(&mut quantity);
    let mut maker = u32_to_le_bytes(m.maker_order_id);
    out.append(&mut maker);
    let mut taker = u32_to_le_bytes(m.taker_order_id);
    out.append(&mut taker);
    let mut ts = u64_to_le_bytes(ts_bits_exec(m.timestamp));
    out.append(&mut ts);
    proof {
        assert(out@ =~= spec_encode_trade_msg(*m));
    }
    out
}

/// Deserializes a wire image back to a trade message; rejects any frame
/// that is not exactly the encoded length.
pub fn decode_trade_msg(b: &[u8]) -> (r: Option<TradeMsg>)
    ensures
        r is Some <==> b@.len() == TRADE_MSG_LEN,
        b@.len() == TRADE_MSG_LEN ==> r == Some(spec_decode_trade_msg(b@)),
{
    if b.len() != TRADE_MSG_LEN {
        return None;
    }
    let msg_type = *vstd::slice::slice_index_get(b, 0);
    let price = u32_from_le_bytes(slice_subrange(b, 1, 5));
    let quantity = u32_from_le_bytes(slice_subrange(b, 5, 9));
    let maker_order_id = u32_from_le_bytes(slice_subrange(b, 9, 13));
    let taker_order_id = u32_from_le_bytes(slice_subrange(b, 13, 17));
    let timestamp = ts_of_bits_exec(u64_from_le_bytes(slice_subrange(b, 17, 25)));
    Some(TradeMsg { msg_type, price, quantity, maker_order_id, taker_order_id, timestamp })
}

/// Round trip: decoding an encoded trade message yields the original
/// fields, byte-exactly.
pub proof fn lemma_trade_msg_round_trip(m: TradeMsg)
    ensures
        spec_encode_trade_msg(m).len() == TRADE_MSG_LEN,
        spec_decode_trade_msg(spec_encode_trade_msg(m)) == m,
{
    lemma_auto_spec_u32_to_from_le_bytes();
    lemma_auto_spec_u64_to_from_le_bytes();
    let b = spec_encode_trade_msg(m);
    assert(b.subrange(1, 5) =~= spec_u32_to_le_bytes(m.price));
    assert(b.subrange(5, 9) =~= spec_u32_to_le_bytes(m.quantity));
    assert(b.subrange(9, 13) =~= spec_u32_to_le_bytes(m.maker_order_id));
    assert(b.subrange(13, 17) =~= spec_u32_to_le_bytes(m.taker_order_id));
    assert(b.subrange(17, 25) =~= spec_u64_to_le_bytes(ts_bits(m.timestamp)));
    lemma_ts_bits_round_trip(m.timestamp);
}

} // verus!
