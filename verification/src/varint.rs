//! Base-128 variable-length integers, the building block of the wire
//! format. The codec itself is prost's; this module says what it does and
//! proves what follows from that.

use vstd::prelude::*;

verus! {

/// The base-128 encoding of `value`: seven bits per byte, least
/// significant group first, the high bit set on every byte but the last.
pub open spec fn varint_bytes(value: nat) -> Seq<u8>
    decreases value,
{
    if value < 128 {
        seq![value as u8]
    } else {
        seq![(128 + value % 128) as u8] + varint_bytes(value / 128)
    }
}

/// Reads one base-128 integer off the front of `bytes`, looking at no
/// more than `limit` bytes. Gives the value and the number of bytes it
/// occupies, or `None` if none of those bytes ends the integer.
pub open spec fn varint_parse(bytes: Seq<u8>, limit: nat) -> Option<(nat, nat)>
    decreases limit,
{
    if limit == 0 || bytes.len() == 0 {
        None
    } else if bytes[0] < 128 {
        Some((bytes[0] as nat, 1))
    } else {
        match varint_parse(bytes.skip(1), (limit - 1) as nat) {
            Some((high, n)) => Some(((bytes[0] - 128) as nat + 128 * high, n + 1)),
            None => None,
        }
    }
}

/// Reads one 64-bit varint off the front of `bytes`: at most ten bytes
/// long, and rejected if its value does not fit in 64 bits.
pub open spec fn varint_u64(bytes: Seq<u8>) -> Option<(u64, nat)> {
    match varint_parse(bytes, 10) {
        Some((value, n)) => if value <= u64::MAX {
            Some((value as u64, n))
        } else {
            None
        },
        None => None,
    }
}

/// `prost::DecodeError`, the reason prost gives when it cannot decode. It
/// is passed along unopened.
#[verifier::external_type_specification]
#[verifier::external_body]
pub struct ExDecodeError(prost::DecodeError);

/// `prost::encoding::encode_varint` on a `Vec<u8>`: appends the base-128
/// encoding of `value` to the buffer and leaves what was there untouched.
#[verifier::external_body]
pub(crate) fn encode_varint(value: u64, buf: &mut Vec<u8>)
    ensures
        final(buf)@ == old(buf)@ + varint_bytes(value as nat),
{
    prost::encoding::encode_varint(value, buf)
}

/// `prost::encoding::decode_varint` on a byte slice: succeeds exactly when
/// the slice starts with a varint of at most ten bytes whose value fits in
/// 64 bits, and then gives that value and the bytes that follow it.
#[verifier::external_body]
pub(crate) fn decode_varint<'a>(bytes: &'a [u8]) -> (r: Result<(u64, &'a [u8]), prost::DecodeError>)
    ensures
        match r {
            Ok((value, rest)) => varint_u64(bytes@) matches Some((v, n)) && value == v && rest@
                == bytes@.skip(n as int),
            Err(_) => varint_u64(bytes@) is None,
        },
{
    let mut rest = bytes;
    let value = prost::encoding::decode_varint(&mut rest)?;
    Ok((value, rest))
}

/// `prost::length_delimiter_len`: the number of bytes in the length prefix
/// of a frame whose body has `length` bytes, which is the length of the
/// base-128 encoding of `length`.
pub assume_specification[ prost::length_delimiter_len ](length: usize) -> (n: usize)
    ensures
        n == varint_bytes(length as nat).len(),
;

/// A varint takes between one and ten bytes for any 64-bit value.
pub proof fn lemma_varint_bytes_len(value: nat)
    ensures
        1 <= varint_bytes(value).len(),
        value <= u64::MAX ==> varint_bytes(value).len() <= 10,
{
    assert(pow128(10) > u64::MAX) by {
        reveal_with_fuel(pow128, 11);
    }
    lemma_varint_bytes_len_bound(value, 10);
}

/// A value below `128^k` takes at most `k` bytes.
proof fn lemma_varint_bytes_len_bound(value: nat, k: nat)
    requires
        k >= 1,
    ensures
        1 <= varint_bytes(value).len(),
        value < pow128(k) ==> varint_bytes(value).len() <= k,
    decreases value,
{
    reveal_with_fuel(pow128, 2);
    if value >= 128 {
        if k >= 2 {
            lemma_varint_bytes_len_bound(value / 128, (k - 1) as nat);
        } else {
            lemma_varint_bytes_len_bound(value / 128, 1);
        }
    }
}

/// What a successful read reports: it used between one and `limit` of
/// the bytes at hand, and the value is below `128` to the number of bytes.
pub proof fn lemma_varint_parse_bounds(bytes: Seq<u8>, limit: nat)
    ensures
        varint_parse(bytes, limit) matches Some((value, n)) ==> 1 <= n <= limit && n
            <= bytes.len() && value < pow128(n),
    decreases limit,
{
    reveal_with_fuel(pow128, 2);
    if limit > 0 && bytes.len() > 0 && bytes[0] >= 128 {
        lemma_varint_parse_bounds(bytes.skip(1), (limit - 1) as nat);
    }
}

/// Reading gives back an encoded value, whatever follows it.
pub proof fn lemma_varint_parse_encoded(value: nat, rest: Seq<u8>, limit: nat)
    requires
        varint_bytes(value).len() <= limit,
    ensures
        varint_parse(varint_bytes(value) + rest, limit) == Some(
            (value, varint_bytes(value).len()),
        ),
    decreases value,
{
    let all = varint_bytes(value) + rest;
    if value < 128 {
        assert(all[0] == value as u8);
    } else {
        let tail = varint_bytes(value / 128);
        assert(all[0] == (128 + value % 128) as u8);
        assert(all.skip(1) == tail + rest);
        lemma_varint_parse_encoded(value / 128, rest, (limit - 1) as nat);
    }
}

/// More input never changes a read that succeeded, nor rescues one that
/// failed with `limit` bytes at hand.
pub proof fn lemma_varint_parse_extend(bytes: Seq<u8>, more: Seq<u8>, limit: nat)
    ensures
        varint_parse(bytes, limit) is Some ==> varint_parse(bytes + more, limit) == varint_parse(
            bytes,
            limit,
        ),
        varint_parse(bytes, limit) is None && bytes.len() >= limit ==> varint_parse(
            bytes + more,
            limit,
        ) is None,
    decreases limit,
{
    if limit > 0 && bytes.len() > 0 {
        assert((bytes + more)[0] == bytes[0]);
        if bytes[0] >= 128 {
            assert((bytes + more).skip(1) == bytes.skip(1) + more);
            lemma_varint_parse_extend(bytes.skip(1), more, (limit - 1) as nat);
        }
    }
}

/// A read that fails for want of input saw nothing but continuation bytes.
pub proof fn lemma_varint_parse_starved(bytes: Seq<u8>, limit: nat)
    requires
        varint_parse(bytes, limit) is None,
        bytes.len() < limit,
    ensures
        forall|i: int| 0 <= i < bytes.len() ==> bytes[i] >= 128,
    decreases limit,
{
    if bytes.len() > 0 {
        lemma_varint_parse_starved(bytes.skip(1), (limit - 1) as nat);
        assert forall|i: int| 0 <= i < bytes.len() implies bytes[i] >= 128 by {
            if i > 0 {
                assert(bytes[i] == bytes.skip(1)[i - 1]);
            }
        }
    }
}

/// The 64-bit reader gives back any encoded 64-bit value, whatever
/// follows it.
pub proof fn lemma_varint_u64_encoded(value: u64, rest: Seq<u8>)
    ensures
        varint_u64(varint_bytes(value as nat) + rest) == Some(
            (value, varint_bytes(value as nat).len()),
        ),
{
    lemma_varint_bytes_len(value as nat);
    lemma_varint_parse_encoded(value as nat, rest, 10);
}

/// More input never changes what the 64-bit reader found, and cannot
/// rescue a failure once ten bytes are at hand.
pub proof fn lemma_varint_u64_extend(bytes: Seq<u8>, more: Seq<u8>)
    ensures
        varint_u64(bytes) is Some ==> varint_u64(bytes + more) == varint_u64(bytes),
        varint_u64(bytes) is None && bytes.len() >= 10 ==> varint_u64(bytes + more) is None,
{
    lemma_varint_parse_extend(bytes, more, 10);
    lemma_varint_parse_bounds(bytes, 10);
}

/// What a successful 64-bit read reports about its length.
pub proof fn lemma_varint_u64_bounds(bytes: Seq<u8>)
    ensures
        varint_u64(bytes) matches Some((value, n)) ==> 1 <= n <= 10 && n <= bytes.len(),
{
    lemma_varint_parse_bounds(bytes, 10);
}

/// `128` to the power `k`.
pub open spec fn pow128(k: nat) -> nat
    decreases k,
{
    if k == 0 {
        1
    } else {
        128 * pow128((k - 1) as nat)
    }
}

} // verus!
