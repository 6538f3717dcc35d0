use vstd::prelude::*;

use crate::events::OrderEvent;
use crate::inputs::CreateOrderInput;

verus! {

/// The ASCII bytes of `msgpack`, the token looked for in content
/// negotiation headers.
pub open spec fn msgpack_token() -> Seq<u8> {
    seq![109u8, 115u8, 103u8, 112u8, 97u8, 99u8, 107u8]
}

/// Whether `needle` occurs contiguously inside `haystack`.
pub open spec fn contains_subseq(haystack: Seq<u8>, needle: Seq<u8>) -> bool {
    exists|i: int|
        0 <= i && i + needle.len() <= haystack.len() && #[trigger] haystack.subrange(
            i,
            i + needle.len(),
        ) == needle
}

/// Content negotiation: whether a header value (its raw bytes) names
/// MessagePack.
pub fn header_names_msgpack(header: &[u8]) -> (r: bool)
    ensures
        r == contains_subseq(header@, msgpack_token()),
{
    let token: [u8; 7] = [109u8, 115u8, 103u8, 112u8, 97u8, 99u8, 107u8];
    proof {
        assert(token@ =~= msgpack_token());
    }
    if header.len() < 7 {
        proof {
            assert(!contains_subseq(header@, msgpack_token())) by {
                if contains_subseq(header@, msgpack_token()) {
                    let i = choose|i: int|
                        0 <= i && i + msgpack_token().len() <= header@.len()
                            && #[trigger] header@.subrange(i, i + msgpack_token().len())
                            == msgpack_token();
                }
            }
        }
        return false;
    }
    let n = header.len();
    let mut start: usize = 0;
    while start <= n - 7
        invariant
            n == header@.len(),
            n >= 7,
            start <= n - 7 + 1,
            token@ == msgpack_token(),
            forall|i: int|
                0 <= i < start ==> #[trigger] header@.subrange(i, i + 7) != msgpack_token(),
        decreases n - start,
    {
        let mut k: usize = 0;
        let mut all_match = true;
        while k < 7
            invariant
                n == header@.len(),
                start + 7 <= n,
                k <= 7,
                token@ == msgpack_token(),
                all_match ==> forall|j: int|
                    0 <= j < k ==> #[trigger] header@[start + j] == msgpack_token()[j],
                !all_match ==> header@.subrange(start as int, start as int + 7)
                    != msgpack_token(),
            decreases 7 - k,
        {
            if *vstd::slice::slice_index_get(header, start + k) != token[k] {
                proof {
                    assert(header@[start + k as int] != msgpack_token()[k as int]);
                    assert(header@.subrange(start as int, start as int + 7)[k as int]
                        == header@[start + k as int]);
                }
                all_match = false;
            }
            k = k + 1;
        }
        if all_match {
            proof {
                assert forall|j: int| 0 <= j < 7 implies header@.subrange(
                    start as int,
                    start as int + 7,
                )[j] == msgpack_token()[j] by {
                    assert(header@[start + j] == msgpack_token()[j]);
                }
                assert(header@.subrange(start as int, start as int + 7) =~= msgpack_token());
            }
            return true;
        }
        start = start + 1;
    }
    proof {
        assert(!contains_subseq(header@, msgpack_token())) by {
            if contains_subseq(header@, msgpack_token()) {
                let i = choose|i: int|
                    0 <= i && i + msgpack_token().len() <= header@.len() && #[trigger] header@.subrange(
                        i,
                        i + msgpack_token().len(),
                    ) == msgpack_token();
                assert(i < start);
            }
        }
    }
    false
}

/// Whether every byte of `s` is an ASCII decimal digit.
pub open spec fn all_digits(s: Seq<u8>) -> bool {
    forall|i: int| 0 <= i < s.len() ==> 48 <= #[trigger] s[i] <= 57
}

/// The numeric value of an all-digit byte string.
pub open spec fn digits_value(s: Seq<u8>) -> int
    decreases s.len(),
{
    if s.len() == 0 {
        0
    } else {
        digits_value(s.drop_last()) * 10 + (s.last() - 48)
    }
}

/// What an order-id string parses to: the value of its digits (an optional
/// leading plus sign allowed), or zero when it is not a decimal numeral or
/// does not fit the id space.
pub open spec fn spec_parse_order_id(s: Seq<u8>) -> u32 {
    let digits = if s.len() > 0 && s[0] == 43 {
        s.drop_first()
    } else {
        s
    };
    if digits.len() > 0 && all_digits(digits) && digits_value(digits) <= u32::MAX {
        digits_value(digits) as u32
    } else {
        0
    }
}

proof fn lemma_digits_value_nonneg(s: Seq<u8>)
    requires
        all_digits(s),
    ensures
        digits_value(s) >= 0,
    decreases s.len(),
{
    if s.len() > 0 {
        assert(all_digits(s.drop_last()));
        lemma_digits_value_nonneg(s.drop_last());
    }
}

proof fn lemma_digits_value_prefix_le(s: Seq<u8>, i: int)
    requires
        all_digits(s),
        0 <= i <= s.len(),
    ensures
        digits_value(s.take(i)) <= digits_value(s),
    decreases s.len() - i,
{
    if i < s.len() {
        lemma_digits_value_prefix_le(s, i + 1);
        assert(s.take(i + 1).drop_last() =~= s.take(i));
        assert(s.take(i + 1).last() == s[i]);
        assert(all_digits(s.take(i)));
        lemma_digits_value_nonneg(s.take(i));
    } else {
        assert(s.take(i) =~= s);
    }
}

/// Parses a cancel request's order id: the decimal value of the string, or
/// zero when it is malformed or out of range.
pub fn parse_order_id(s: &[u8]) -> (id: u32)
    ensures
        id == spec_parse_order_id(s@),
{
    let start: usize = if s.len() > 0 && *vstd::slice::slice_index_get(s, 0) == 43 {
        1
    } else {
        0
    };
    let ghost digits = if s@.len() > 0 && s@[0] == 43 {
        s@.drop_first()
    } else {
        s@
    };
    proof {
        assert(digits =~= s@.subrange(start as int, s@.len() as int));
    }
    if s.len() == start {
        return 0;
    }
    let n = s.len();
    let mut acc: u64 = 0;
    let mut i: usize = start;
    proof {
        assert(digits.take(0) =~= Seq::<u8>::empty());
    }
    while i < n
        invariant
            n == s@.len(),
            start <= i <= n,
            start < n,
            digits == s@.subrange(start as int, s@.len() as int),
            digits == (if s@.len() > 0 && s@[0] == 43 {
                s@.drop_first()
            } else {
                s@
            }),
            acc <= u32::MAX,
            all_digits(digits.take(i - start)),
            acc as int == digits_value(digits.take(i - start)),
        decreases n - i,
    {
        let b = *vstd::slice::slice_index_get(s, i);
        if b < 48 || b > 57 {
            proof {
                assert(digits[i - start] == b);
                assert(!all_digits(digits));
                assert(spec_parse_order_id(s@) == 0);
            }
            return 0;
        }
        let ghost oi = i - start;
        proof {
            assert(digits.take(oi + 1).drop_last() =~= digits.take(oi as int));
            assert(digits.take(oi + 1).last() == digits[oi as int]);
            assert(digits[oi as int] == b);
            assert(all_digits(digits.take(oi + 1)));
            assert(digits_value(digits.take(oi + 1)) == digits_value(digits.take(oi as int)) * 10
                + (b - 48));
        }
        acc = acc * 10 + ((b - 48) as u64);
        i = i + 1;
        proof {
            assert(acc as int == digits_value(digits.take(i - start)));
        }
        if acc > 0xffff_ffff {
            proof {
                assert(digits_value(digits.take(i - start)) > u32::MAX);
                if all_digits(digits) {
                    lemma_digits_value_prefix_le(digits, i - start);
                    assert(digits_value(digits) > u32::MAX);
                }
                assert(spec_parse_order_id(s@) == 0);
            }
            return 0;
        }
    }
    proof {
        assert(digits.take(i - start) =~= digits);
        assert(digits.len() > 0);
    }
    acc as u32
}

/// Builds the ingress event for an admitted order submission, under the id
/// the boundary assigned to it.
pub fn new_order_event(input: &CreateOrderInput, order_id: u32) -> (e: OrderEvent)
    ensures
        e == (OrderEvent::NewOrder {
            order_id,
            user_id: input.user_id,
            price: input.price,
            quantity: input.quantity,
            side: input.side,
        }),
{
    OrderEvent::NewOrder {
        order_id,
        user_id: input.user_id,
        price: input.price,
        quantity: input.quantity,
        side: input.side,
    }
}

} // verus!
