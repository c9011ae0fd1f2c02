//! The field layer of the wire format: a message body is a run of
//! fields, each a key (field number and wire type) followed by a payload
//! whose shape the wire type decides.

use crate::varint::{
    decode_varint, encode_varint, lemma_varint_u64_bounds, lemma_varint_u64_encoded, varint_bytes,
    varint_u64,
};
use vstd::prelude::*;
use vstd::slice::slice_subrange;

verus! {

/// Wire type of a payload that is one varint.
pub const WIRE_VARINT: u8 = 0;

/// Wire type of a payload of eight bytes.
pub const WIRE_FIXED64: u8 = 1;

/// Wire type of a payload that is a length and then that many bytes.
pub const WIRE_LEN: u8 = 2;

/// Wire type of the key that opens a group: the fields that follow, up to
/// the matching end key, are its payload.
pub const WIRE_START_GROUP: u8 = 3;

/// Wire type of the key that ends a group. It has no payload.
pub const WIRE_END_GROUP: u8 = 4;

/// Wire type of a payload of four bytes.
pub const WIRE_FIXED32: u8 = 5;

/// How many groups may be open around a field. A field that lies deeper
/// is not read.
pub const MAX_OPEN_GROUPS: usize = 99;

/// One field as it lies at the front of a byte sequence.
pub struct FieldView {
    /// The field number, at least 1.
    pub tag: nat,
    /// The wire type.
    pub wire: nat,
    /// The payload of a varint field; 0 for other wire types.
    pub value: u64,
    /// The payload bytes of a length-delimited field; empty for other
    /// wire types.
    pub data: Seq<u8>,
    /// How many bytes the key and the payload take together.
    pub len: nat,
}

/// The key that introduces a field.
pub open spec fn key(tag: nat, wire: nat) -> nat {
    tag * 8 + wire
}

/// Reads the key at the front of `bytes`: the field number, the wire type,
/// and the number of bytes that the key takes.
///
/// There is none if the bytes do not start with a varint, if its value
/// does not fit in 32 bits, if the wire type is above 5, or if the field
/// number is 0.
pub open spec fn key_at(bytes: Seq<u8>) -> Option<(nat, nat, nat)> {
    match varint_u64(bytes) {
        None => None,
        Some((k, n)) => if k <= u32::MAX && k % 8 <= 5 && k / 8 >= 1 {
            Some(((k / 8) as nat, (k % 8) as nat, n))
        } else {
            None
        },
    }
}

/// How many bytes the payload of a field takes at the front of `bytes`,
/// for the four wire types whose payload stands alone: a varint, eight
/// bytes, a length and then that many bytes, or four bytes. There is no
/// such number if the payload is cut short or is not a valid varint.
pub open spec fn payload_len(wire: nat, bytes: Seq<u8>) -> Option<nat> {
    if wire == WIRE_VARINT {
        match varint_u64(bytes) {
            Some((value, m)) => Some(m),
            None => None,
        }
    } else if wire == WIRE_FIXED64 {
        if bytes.len() >= 8 {
            Some(8)
        } else {
            None
        }
    } else if wire == WIRE_LEN {
        match varint_u64(bytes) {
            Some((size, m)) => if size <= bytes.len() - m {
                Some(m + size as nat)
            } else {
                None
            },
            None => None,
        }
    } else if wire == WIRE_FIXED32 {
        if bytes.len() >= 4 {
            Some(4)
        } else {
            None
        }
    } else {
        None
    }
}

/// `length` further on, if there is a length.
pub open spec fn further(length: Option<nat>, by: nat) -> Option<nat> {
    match length {
        Some(m) => Some(m + by),
        None => None,
    }
}

/// How many bytes it takes to close the groups that are open, given the
/// field numbers of those groups from the outermost to the innermost.
///
/// An end key must bear the number of the innermost open group, which it
/// closes. Any other field is passed over; it must not have
/// `MAX_OPEN_GROUPS` groups open around it. There is no such number if
/// the bytes run out first or hold something that is not a field.
pub open spec fn groups_len(bytes: Seq<u8>, open: Seq<u32>) -> Option<nat>
    decreases bytes.len(),
{
    if open.len() == 0 {
        Some(0)
    } else {
        match key_at(bytes) {
            None => None,
            Some((tag, wire, n)) => {
                proof {
                    lemma_varint_u64_bounds(bytes);
                }
                let rest = bytes.skip(n as int);
                if wire == WIRE_END_GROUP {
                    if tag == open.last() {
                        further(groups_len(rest, open.drop_last()), n)
                    } else {
                        None
                    }
                } else if open.len() >= MAX_OPEN_GROUPS {
                    None
                } else if wire == WIRE_START_GROUP {
                    further(groups_len(rest, open.push(tag as u32)), n)
                } else {
                    proof {
                        lemma_payload_len_bounds(wire, rest);
                    }
                    match payload_len(wire, rest) {
                        Some(m) => further(groups_len(rest.skip(m as int), open), n + m),
                        None => None,
                    }
                }
            },
        }
    }
}

/// Reads the field at the front of `bytes`.
///
/// There is none if there is no key, if the payload is cut short or
/// broken, if a group is not closed, or if the key is an end key, which
/// can only stand inside a group.
pub open spec fn field_at(bytes: Seq<u8>) -> Option<FieldView> {
    match key_at(bytes) {
        None => None,
        Some((tag, wire, n)) => {
            let payload = bytes.skip(n as int);
            let size = if wire == WIRE_START_GROUP {
                groups_len(payload, seq![tag as u32])
            } else {
                payload_len(wire, payload)
            };
            match size {
                None => None,
                Some(m) => Some(
                    FieldView {
                        tag,
                        wire,
                        value: if wire == WIRE_VARINT {
                            varint_u64(payload).unwrap().0
                        } else {
                            0
                        },
                        data: if wire == WIRE_LEN {
                            let (size, k) = varint_u64(payload).unwrap();
                            payload.subrange(k as int, k + size)
                        } else {
                            Seq::empty()
                        },
                        len: n + m,
                    },
                ),
            }
        },
    }
}

/// The payload of a field does not reach past the bytes at hand.
pub proof fn lemma_payload_len_bounds(wire: nat, bytes: Seq<u8>)
    ensures
        payload_len(wire, bytes) matches Some(m) ==> 1 <= m <= bytes.len(),
{
    lemma_varint_u64_bounds(bytes);
}

/// Closing groups does not reach past the bytes at hand, and takes at
/// least one byte if a group is open.
pub proof fn lemma_groups_len_bounds(bytes: Seq<u8>, open: Seq<u32>)
    ensures
        groups_len(bytes, open) matches Some(m) ==> m <= bytes.len() && (open.len() > 0 ==> m
            >= 1),
    decreases bytes.len(),
{
    if open.len() > 0 {
        if let Some((tag, wire, n)) = key_at(bytes) {
            lemma_varint_u64_bounds(bytes);
            let rest = bytes.skip(n as int);
            if wire == WIRE_END_GROUP {
                lemma_groups_len_bounds(rest, open.drop_last());
            } else if open.len() >= MAX_OPEN_GROUPS {
            } else if wire == WIRE_START_GROUP {
                lemma_groups_len_bounds(rest, open.push(tag as u32));
            } else {
                lemma_payload_len_bounds(wire, rest);
                if let Some(m) = payload_len(wire, rest) {
                    lemma_groups_len_bounds(rest.skip(m as int), open);
                }
            }
        }
    }
}

/// A field never is empty and never reaches past the bytes it was read
/// from; its number fits in 29 bits.
pub proof fn lemma_field_at_bounds(bytes: Seq<u8>)
    ensures
        field_at(bytes) matches Some(f) ==> 2 <= f.len <= bytes.len() && 1 <= f.tag < 0x2000_0000
            && f.wire <= 5,
{
    lemma_varint_u64_bounds(bytes);
    if let Some((tag, wire, n)) = key_at(bytes) {
        let payload = bytes.skip(n as int);
        lemma_payload_len_bounds(wire, payload);
        lemma_groups_len_bounds(payload, seq![tag as u32]);
    }
}

/// A length-delimited field as it is written: key, length, bytes.
pub open spec fn len_field(tag: nat, data: Seq<u8>) -> Seq<u8> {
    varint_bytes(key(tag, WIRE_LEN as nat)) + varint_bytes(data.len()) + data
}

/// A varint field as it is written: key, value.
pub open spec fn varint_field(tag: nat, value: u64) -> Seq<u8> {
    varint_bytes(key(tag, WIRE_VARINT as nat)) + varint_bytes(value as nat)
}

/// A written length-delimited field reads back as itself, whatever
/// follows it.
pub proof fn lemma_field_at_len_field(tag: nat, data: Seq<u8>, rest: Seq<u8>)
    requires
        1 <= tag < 0x2000_0000,
        data.len() <= u64::MAX,
    ensures
        field_at(len_field(tag, data) + rest) == Some(
            FieldView {
                tag,
                wire: WIRE_LEN as nat,
                value: 0,
                data,
                len: len_field(tag, data).len(),
            },
        ),
{
    let k = key(tag, WIRE_LEN as nat);
    let head = varint_bytes(k);
    let size = varint_bytes(data.len());
    let all = len_field(tag, data) + rest;
    assert(all == head + (size + data + rest));
    lemma_varint_u64_encoded(k as u64, size + data + rest);
    assert(all.skip(head.len() as int) == size + (data + rest));
    lemma_varint_u64_encoded(data.len() as u64, data + rest);
    let payload = all.skip(head.len() as int);
    assert(payload.subrange(size.len() as int, (size.len() + data.len()) as int) == data);
}

/// A written varint field reads back as itself, whatever follows it.
pub proof fn lemma_field_at_varint_field(tag: nat, value: u64, rest: Seq<u8>)
    requires
        1 <= tag < 0x2000_0000,
    ensures
        field_at(varint_field(tag, value) + rest) == Some(
            FieldView {
                tag,
                wire: WIRE_VARINT as nat,
                value,
                data: Seq::empty(),
                len: varint_field(tag, value).len(),
            },
        ),
{
    let k = key(tag, WIRE_VARINT as nat);
    let head = varint_bytes(k);
    let all = varint_field(tag, value) + rest;
    assert(all == head + (varint_bytes(value as nat) + rest));
    lemma_varint_u64_encoded(k as u64, varint_bytes(value as nat) + rest);
    assert(all.skip(head.len() as int) == varint_bytes(value as nat) + rest);
    lemma_varint_u64_encoded(value, rest);
}

/// A field read from a byte slice, with what follows it.
pub struct Field<'a> {
    /// The field number.
    pub tag: u32,
    /// The wire type.
    pub wire: u8,
    /// The payload of a varint field; 0 for other wire types.
    pub value: u64,
    /// The payload of a length-delimited field; empty for other wire types.
    pub data: &'a [u8],
    /// The bytes after the field.
    pub rest: &'a [u8],
}

impl<'a> Field<'a> {
    /// Whether this is the field that `field_at` finds at the front of
    /// `bytes`, together with the right remainder.
    pub open spec fn reads(&self, bytes: Seq<u8>) -> bool {
        &&& field_at(bytes) matches Some(f)
        &&& f.tag == self.tag
        &&& f.wire == self.wire
        &&& f.value == self.value
        &&& f.data == self.data@
        &&& self.rest@ == bytes.skip(f.len as int)
    }
}

/// Reads the key at the front of `bytes`: the field number, the wire type,
/// and the bytes after the key.
pub fn read_key<'a>(bytes: &'a [u8]) -> (r: Option<(u32, u8, &'a [u8])>)
    ensures
        match r {
            Some((tag, wire, rest)) => key_at(bytes@) matches Some((t, w, n)) && t == tag && w
                == wire && rest@ == bytes@.skip(n as int),
            None => key_at(bytes@) is None,
        },
{
    match decode_varint(bytes) {
        Ok((k, rest)) => {
            if k <= 0xffff_ffff && k % 8 <= 5 && k / 8 >= 1 {
                Some(((k / 8) as u32, (k % 8) as u8, rest))
            } else {
                None
            }
        },
        Err(_) => None,
    }
}

/// Passes over a payload that stands alone, and gives the bytes after it.
pub fn skip_payload<'a>(wire: u8, bytes: &'a [u8]) -> (r: Option<&'a [u8]>)
    ensures
        match r {
            Some(rest) => payload_len(wire as nat, bytes@) matches Some(m) && rest@
                == bytes@.skip(m as int),
            None => payload_len(wire as nat, bytes@) is None,
        },
{
    proof {
        lemma_varint_u64_bounds(bytes@);
    }
    if wire == WIRE_VARINT {
        match decode_varint(bytes) {
            Ok((value, rest)) => Some(rest),
            Err(_) => None,
        }
    } else if wire == WIRE_FIXED64 {
        if bytes.len() >= 8 {
            Some(slice_subrange(bytes, 8, bytes.len()))
        } else {
            None
        }
    } else if wire == WIRE_LEN {
        match decode_varint(bytes) {
            Ok((size, after)) => {
                if size <= after.len() as u64 {
                    let rest = slice_subrange(after, size as usize, after.len());
                    proof {
                        let m = varint_u64(bytes@).unwrap().1;
                        assert(rest@ == bytes@.skip((m + size) as int));
                    }
                    Some(rest)
                } else {
                    None
                }
            },
            Err(_) => None,
        }
    } else if wire == WIRE_FIXED32 {
        if bytes.len() >= 4 {
            Some(slice_subrange(bytes, 4, bytes.len()))
        } else {
            None
        }
    } else {
        None
    }
}

/// Passes over the rest of the group with field number `tag`, whose start
/// key has just been read, and gives the bytes after its end key.
pub fn skip_group<'a>(tag: u32, bytes: &'a [u8]) -> (r: Option<&'a [u8]>)
    ensures
        match r {
            Some(rest) => groups_len(bytes@, seq![tag]) matches Some(m) && rest@ == bytes@.skip(
                m as int,
            ),
            None => groups_len(bytes@, seq![tag]) is None,
        },
{
    let mut open: Vec<u32> = Vec::new();
    open.push(tag);
    let mut rest = bytes;
    assert(open@ == seq![tag]);
    assert(rest@ == bytes@.skip(0));
    while open.len() > 0
        invariant
            rest@.len() <= bytes@.len(),
            rest@ == bytes@.skip(bytes@.len() - rest@.len()),
            groups_len(bytes@, seq![tag]) == further(
                groups_len(rest@, open@),
                (bytes@.len() - rest@.len()) as nat,
            ),
        decreases rest@.len(),
    {
        let ghost before = rest@;
        let ghost done = bytes@.len() - rest@.len();
        proof {
            lemma_varint_u64_bounds(before);
        }
        match read_key(rest) {
            None => {
                return None;
            },
            Some((inner, wire, after_key)) => {
                let ghost n = key_at(before).unwrap().2;
                proof {
                    assert(after_key@ == bytes@.skip(done + n));
                }
                if wire == WIRE_END_GROUP {
                    if open[open.len() - 1] != inner {
                        return None;
                    }
                    let ghost was_open = open@;
                    open.pop();
                    assert(open@ == was_open.drop_last());
                    rest = after_key;
                } else if open.len() >= MAX_OPEN_GROUPS {
                    return None;
                } else if wire == WIRE_START_GROUP {
                    open.push(inner);
                    rest = after_key;
                } else {
                    proof {
                        lemma_payload_len_bounds(wire as nat, after_key@);
                    }
                    match skip_payload(wire, after_key) {
                        None => {
                            return None;
                        },
                        Some(after) => {
                            proof {
                                let m = payload_len(wire as nat, after_key@).unwrap();
                                assert(after@ == bytes@.skip(done + n + m));
                            }
                            rest = after;
                        },
                    }
                }
            },
        }
    }
    proof {
        assert(rest@ == bytes@.skip(bytes@.len() - rest@.len()));
    }
    Some(rest)
}

/// Reads the field at the front of `bytes`.
pub fn read_field<'a>(bytes: &'a [u8]) -> (r: Option<Field<'a>>)
    ensures
        match r {
            Some(field) => field.reads(bytes@),
            None => field_at(bytes@) is None,
        },
{
    let (tag, wire, payload) = match read_key(bytes) {
        Some(key) => key,
        None => {
            return None;
        },
    };
    proof {
        lemma_varint_u64_bounds(bytes@);
        lemma_varint_u64_bounds(payload@);
        lemma_payload_len_bounds(wire as nat, payload@);
        lemma_groups_len_bounds(payload@, seq![tag]);
    }
    let ghost n = key_at(bytes@).unwrap().2;
    let none = slice_subrange(payload, 0, 0);
    assert(none@ == Seq::<u8>::empty());
    if wire == WIRE_START_GROUP {
        match skip_group(tag, payload) {
            Some(rest) => {
                proof {
                    let m = groups_len(payload@, seq![tag]).unwrap();
                    assert(rest@ == bytes@.skip((n + m) as int));
                }
                Some(Field { tag, wire, value: 0, data: none, rest })
            },
            None => None,
        }
    } else if wire == WIRE_VARINT {
        match decode_varint(payload) {
            Ok((value, rest)) => {
                proof {
                    let m = varint_u64(payload@).unwrap().1;
                    assert(rest@ == bytes@.skip((n + m) as int));
                }
                Some(Field { tag, wire, value, data: none, rest })
            },
            Err(_) => None,
        }
    } else if wire == WIRE_LEN {
        match decode_varint(payload) {
            Ok((size, after)) => {
                if size > after.len() as u64 {
                    return None;
                }
                let size: usize = size as usize;
                let data = slice_subrange(after, 0, size);
                let rest = slice_subrange(after, size, after.len());
                proof {
                    let m = varint_u64(payload@).unwrap().1;
                    assert(data@ == payload@.subrange(m as int, m + size));
                    assert(rest@ == bytes@.skip((n + m + size) as int));
                }
                Some(Field { tag, wire, value: 0, data, rest })
            },
            Err(_) => None,
        }
    } else {
        match skip_payload(wire, payload) {
            Some(rest) => {
                proof {
                    let m = payload_len(wire as nat, payload@).unwrap();
                    assert(rest@ == bytes@.skip((n + m) as int));
                }
                Some(Field { tag, wire, value: 0, data: none, rest })
            },
            None => None,
        }
    }
}

/// Appends `src` to `dst`.
pub fn append(dst: &mut Vec<u8>, src: &[u8])
    ensures
        final(dst)@ == old(dst)@ + src@,
{
    dst.extend_from_slice(src);
    assert(dst@ =~= old(dst)@ + src@);
}

/// Writes a length-delimited field.
pub fn write_len_field(tag: u32, data: &[u8], dst: &mut Vec<u8>)
    requires
        1 <= tag < 0x2000_0000,
    ensures
        final(dst)@ == old(dst)@ + len_field(tag as nat, data@),
{
    encode_varint(tag as u64 * 8 + 2, dst);
    encode_varint(data.len() as u64, dst);
    append(dst, data);
    assert(dst@ == old(dst)@ + len_field(tag as nat, data@));
}

/// Writes a varint field.
pub fn write_varint_field(tag: u32, value: u64, dst: &mut Vec<u8>)
    requires
        1 <= tag < 0x2000_0000,
    ensures
        final(dst)@ == old(dst)@ + varint_field(tag as nat, value),
{
    encode_varint(tag as u64 * 8, dst);
    encode_varint(value, dst);
    assert(dst@ == old(dst)@ + varint_field(tag as nat, value));
}

} // verus!
