//! Framing: every message travels as a varint that gives the length of
//! its body, followed by the body.

use crate::varint::{
    decode_varint, encode_varint, lemma_varint_parse_bounds, lemma_varint_parse_starved,
    lemma_varint_u64_bounds, lemma_varint_u64_encoded, lemma_varint_u64_extend, pow128,
    varint_bytes, varint_parse, varint_u64,
};
use crate::wire::append;
use vstd::prelude::*;
use vstd::slice::slice_subrange;

verus! {

/// Why a buffer did not yield a message.
#[derive(Clone, Copy, Debug, PartialEq, Eq, Structural)]
pub enum FrameError {
    /// The buffer ends before the frame does; more input may complete it.
    Incomplete,
    /// The bytes at hand can never become a valid frame.
    Malformed,
}

/// The frame that carries `body`.
pub open spec fn frame(body: Seq<u8>) -> Seq<u8> {
    varint_bytes(body.len()) + body
}

/// What lies at the front of a buffer, as far as framing goes.
pub enum FrameView {
    /// A whole frame: its body, and the bytes that prefix and body take.
    Whole { body: Seq<u8>, consumed: nat },
    /// The start of a frame that the buffer does not hold to its end.
    Partial,
    /// A length prefix that is not a valid varint.
    Invalid,
}

/// Splits the frame at the front of `bytes` into prefix and body.
///
/// The prefix is invalid once ten bytes are at hand and they do not hold a
/// varint with a 64-bit value; with fewer bytes and no end of the varint
/// in sight, or with less body than the prefix announces, the frame is
/// partial.
pub open spec fn frame_at(bytes: Seq<u8>) -> FrameView {
    match varint_u64(bytes) {
        None => if bytes.len() < 10 {
            FrameView::Partial
        } else {
            FrameView::Invalid
        },
        Some((size, n)) => if size > bytes.len() - n {
            FrameView::Partial
        } else {
            FrameView::Whole { body: bytes.subrange(n as int, n + size), consumed: n + size as nat }
        },
    }
}

/// A whole frame takes at least its prefix, and at most the buffer.
pub proof fn lemma_frame_at_bounds(bytes: Seq<u8>)
    ensures
        frame_at(bytes) matches FrameView::Whole { body, consumed } ==> 1 <= consumed
            <= bytes.len() && body.len() < consumed,
{
    lemma_varint_u64_bounds(bytes);
}

/// A written frame reads back as a whole frame with the same body,
/// whatever follows it.
pub proof fn lemma_frame_at_frame(body: Seq<u8>, rest: Seq<u8>)
    requires
        body.len() <= u64::MAX,
    ensures
        frame_at(frame(body) + rest) == (FrameView::Whole { body, consumed: frame(body).len() }),
{
    let prefix = varint_bytes(body.len());
    let all = frame(body) + rest;
    assert(all == prefix + (body + rest));
    lemma_varint_u64_encoded(body.len() as u64, body + rest);
    assert(all.subrange(prefix.len() as int, (prefix.len() + body.len()) as int) == body);
}

/// More input never changes a whole frame, and never mends an invalid
/// prefix.
pub proof fn lemma_frame_at_extend(bytes: Seq<u8>, more: Seq<u8>)
    ensures
        frame_at(bytes) is Whole ==> frame_at(bytes + more) == frame_at(bytes),
        frame_at(bytes) is Invalid ==> frame_at(bytes + more) is Invalid,
{
    lemma_varint_u64_extend(bytes, more);
    lemma_varint_u64_bounds(bytes);
    if let FrameView::Whole { body, consumed } = frame_at(bytes) {
        let (size, n) = varint_u64(bytes).unwrap();
        assert((bytes + more).subrange(n as int, n + size) == bytes.subrange(n as int, n + size));
    }
}

/// A buffer under ten bytes whose prefix cannot be read holds nothing but
/// continuation bytes: it is the start of a prefix, not a broken one.
pub proof fn lemma_short_prefix_is_partial(bytes: Seq<u8>)
    requires
        varint_u64(bytes) is None,
        bytes.len() < 10,
    ensures
        forall|i: int| 0 <= i < bytes.len() ==> bytes[i] >= 128,
{
    lemma_varint_parse_bounds(bytes, 10);
    assert(pow128(9) <= u64::MAX) by {
        reveal_with_fuel(pow128, 10);
    }
    if let Some((value, n)) = varint_parse(bytes, 10) {
        lemma_pow128_monotone(n, 9);
    } else {
        lemma_varint_parse_starved(bytes, 10);
    }
}

/// `128^a <= 128^b` for `a <= b`.
proof fn lemma_pow128_monotone(a: nat, b: nat)
    requires
        a <= b,
    ensures
        pow128(a) <= pow128(b),
    decreases b,
{
    reveal_with_fuel(pow128, 2);
    if a < b {
        lemma_pow128_monotone(a, (b - 1) as nat);
    }
}

/// Appends the frame that carries `body` to `dst` and returns how many
/// bytes that took.
pub fn write_frame(body: &[u8], dst: &mut Vec<u8>) -> (written: usize)
    ensures
        final(dst)@ == old(dst)@ + frame(body@),
        written == frame(body@).len(),
{
    let prefix_len = prost::length_delimiter_len(body.len());
    encode_varint(body.len() as u64, dst);
    append(dst, body);
    assert(dst@ == old(dst)@ + frame(body@));
    assert(dst@.len() == dst.len());
    body.len() + prefix_len
}

/// Splits the frame at the front of `bytes` into its body and the number
/// of bytes that prefix and body take together.
pub fn split_frame<'a>(bytes: &'a [u8]) -> (r: Result<(&'a [u8], usize), FrameError>)
    ensures
        match r {
            Ok((body, consumed)) => frame_at(bytes@) == (FrameView::Whole {
                body: body@,
                consumed: consumed as nat,
            }),
            Err(FrameError::Incomplete) => frame_at(bytes@) is Partial,
            Err(FrameError::Malformed) => frame_at(bytes@) is Invalid,
        },
{
    match decode_varint(bytes) {
        Err(_) => {
            if bytes.len() < 10 {
                Err(FrameError::Incomplete)
            } else {
                Err(FrameError::Malformed)
            }
        },
        Ok((size, rest)) => {
            proof {
                lemma_varint_u64_bounds(bytes@);
            }
            if size > rest.len() as u64 {
                Err(FrameError::Incomplete)
            } else {
                let size: usize = size as usize;
                let body = slice_subrange(rest, 0, size);
                let prefix_len = bytes.len() - rest.len();
                proof {
                    let n = varint_u64(bytes@).unwrap().1;
                    assert(body@ == bytes@.subrange(n as int, n + size));
                }
                Ok((body, prefix_len + size))
            }
        },
    }
}

} // verus!
