//! The two messages of the protocol, and their encoding.
//!
//! A request carries the letters at hand (field 1, a string) and the rule
//! to apply (field 2, an enumeration sent as a varint). A reply carries
//! the matching words (field 1, a repeated string). A field that holds
//! its default value is not sent; fields that a reader does not know are
//! skipped.

use crate::frame::{
    frame, frame_at, lemma_frame_at_extend, lemma_frame_at_frame, split_frame, write_frame,
    FrameError, FrameView,
};
use crate::text::str_from_utf8;
use crate::wire::{
    field_at, lemma_field_at_bounds, lemma_field_at_len_field, lemma_field_at_varint_field,
    len_field, read_field, varint_field, write_len_field, write_varint_field, WIRE_LEN,
    WIRE_VARINT,
};
use vstd::prelude::*;
use vstd::utf8::{
    decode_utf8, encode_utf8, encode_utf8_decode_utf8, encode_utf8_valid_utf8, valid_utf8,
};

verus! {

/// Field number of the letters of a request.
pub const TAG_LETTERS: u32 = 1;

/// Field number of the rule of a request.
pub const TAG_KIND: u32 = 2;

/// Field number of the words of a reply.
pub const TAG_WORDS: u32 = 1;

/// The letter-availability rule that a request asks for.
#[derive(Clone, Copy, Debug, PartialEq, Eq, Structural)]
pub enum SolverKind {
    /// Every letter may be used any number of times.
    Ouija,
    /// Every letter may be used at most once.
    Scrabble,
}

impl SolverKind {
    /// The rule that a wire value stands for: 1 is Scrabble, and 0, like
    /// every value that names no rule, is Ouija.
    pub open spec fn of_wire(value: i32) -> SolverKind {
        if value == 1 {
            SolverKind::Scrabble
        } else {
            SolverKind::Ouija
        }
    }

    /// The wire value of a rule.
    pub open spec fn wire_value(self) -> i32 {
        match self {
            SolverKind::Ouija => 0,
            SolverKind::Scrabble => 1,
        }
    }

    /// The wire value of this rule.
    pub fn to_i32(self) -> (value: i32)
        ensures
            value == self.wire_value(),
            SolverKind::of_wire(value) == self,
    {
        match self {
            SolverKind::Ouija => 0,
            SolverKind::Scrabble => 1,
        }
    }

    /// The rule with the given wire value, if there is one.
    pub fn from_i32(value: i32) -> (kind: Option<SolverKind>)
        ensures
            kind == if value == 0 {
                Some(SolverKind::Ouija)
            } else if value == 1 {
                Some(SolverKind::Scrabble)
            } else {
                None
            },
    {
        if value == 0 {
            Some(SolverKind::Ouija)
        } else if value == 1 {
            Some(SolverKind::Scrabble)
        } else {
            None
        }
    }
}

/// A request: the letters at hand and the rule to apply.
#[derive(Clone, Debug, PartialEq, Eq)]
pub struct WordRequest {
    /// The letters at hand; repeats count, order does not.
    pub letters: String,
    /// The rule, as its wire value.
    pub kind: i32,
}

/// What a request holds.
pub struct WordRequestView {
    pub letters: Seq<char>,
    pub kind: i32,
}

impl View for WordRequest {
    type V = WordRequestView;

    open spec fn view(&self) -> WordRequestView {
        WordRequestView { letters: self.letters@, kind: self.kind }
    }
}

/// A reply: the matching words, in dictionary order.
#[derive(Clone, Debug, PartialEq, Eq)]
pub struct WordsReply {
    pub words: Vec<String>,
}

impl View for WordsReply {
    type V = Seq<Seq<char>>;

    open spec fn view(&self) -> Seq<Seq<char>> {
        self.words.deep_view()
    }
}

/// The varint that carries a rule: its value as a 64-bit two's complement
/// number, so that a negative value takes ten bytes.
pub open spec fn kind_on_wire(kind: i32) -> u64 {
    #[verifier::truncate]
    (kind as u64)
}

/// The rule that a varint carries: its low 32 bits as a two's complement
/// number.
pub open spec fn kind_off_wire(value: u64) -> i32 {
    #[verifier::truncate]
    (value as i32)
}

/// A string field as it is written.
pub open spec fn text_field(tag: nat, text: Seq<char>) -> Seq<u8> {
    len_field(tag, encode_utf8(text))
}

/// The body of a request: the letters unless there are none, then the
/// rule unless it is 0.
pub open spec fn request_body(m: WordRequestView) -> Seq<u8> {
    let letters = if m.letters.len() == 0 {
        Seq::empty()
    } else {
        text_field(TAG_LETTERS as nat, m.letters)
    };
    let kind = if m.kind == 0 {
        Seq::empty()
    } else {
        varint_field(TAG_KIND as nat, kind_on_wire(m.kind))
    };
    letters + kind
}

/// The body of a reply: one string field per word, in order.
pub open spec fn reply_body(words: Seq<Seq<char>>) -> Seq<u8>
    decreases words.len(),
{
    if words.len() == 0 {
        Seq::empty()
    } else {
        reply_body(words.drop_last()) + text_field(TAG_WORDS as nat, words.last())
    }
}

/// Reads the fields of a request body one after the other, starting from
/// what `acc` holds. A later occurrence of a field replaces an earlier
/// one. There is no request if a field cannot be read, if the letters are
/// not a string of valid UTF-8, or if the rule is not a varint.
pub open spec fn request_fields(bytes: Seq<u8>, acc: WordRequestView) -> Option<WordRequestView>
    decreases bytes.len(),
{
    if bytes.len() == 0 {
        Some(acc)
    } else {
        match field_at(bytes) {
            None => None,
            Some(f) => {
                proof {
                    lemma_field_at_bounds(bytes);
                }
                let rest = bytes.skip(f.len as int);
                if f.tag == TAG_LETTERS {
                    if f.wire == WIRE_LEN && valid_utf8(f.data) {
                        request_fields(
                            rest,
                            WordRequestView { letters: decode_utf8(f.data), kind: acc.kind },
                        )
                    } else {
                        None
                    }
                } else if f.tag == TAG_KIND {
                    if f.wire == WIRE_VARINT {
                        request_fields(
                            rest,
                            WordRequestView { letters: acc.letters, kind: kind_off_wire(f.value) },
                        )
                    } else {
                        None
                    }
                } else {
                    request_fields(rest, acc)
                }
            },
        }
    }
}

/// The request that a body holds.
pub open spec fn request_of_body(bytes: Seq<u8>) -> Option<WordRequestView> {
    request_fields(bytes, WordRequestView { letters: Seq::empty(), kind: 0 })
}

/// Reads the fields of a reply body one after the other, adding each word
/// to `acc`. There is no reply if a field cannot be read or if a word is
/// not a string of valid UTF-8.
pub open spec fn reply_fields(bytes: Seq<u8>, acc: Seq<Seq<char>>) -> Option<Seq<Seq<char>>>
    decreases bytes.len(),
{
    if bytes.len() == 0 {
        Some(acc)
    } else {
        match field_at(bytes) {
            None => None,
            Some(f) => {
                proof {
                    lemma_field_at_bounds(bytes);
                }
                let rest = bytes.skip(f.len as int);
                if f.tag == TAG_WORDS {
                    if f.wire == WIRE_LEN && valid_utf8(f.data) {
                        reply_fields(rest, acc.push(decode_utf8(f.data)))
                    } else {
                        None
                    }
                } else {
                    reply_fields(rest, acc)
                }
            },
        }
    }
}

/// The reply that a body holds.
pub open spec fn reply_of_body(bytes: Seq<u8>) -> Option<Seq<Seq<char>>> {
    reply_fields(bytes, Seq::empty())
}

/// What decoding finds at the front of a buffer.
pub enum Decoded<M> {
    /// A whole frame with a well-formed body: the message, and the number
    /// of bytes the frame takes.
    Complete { message: M, consumed: nat },
    /// The start of a frame; more input is needed to tell.
    Incomplete,
    /// Bytes that can never become a valid frame.
    Malformed,
}

/// Decodes the request frame at the front of `bytes`.
pub open spec fn request_frame_at(bytes: Seq<u8>) -> Decoded<WordRequestView> {
    match frame_at(bytes) {
        FrameView::Whole { body, consumed } => match request_of_body(body) {
            Some(message) => Decoded::Complete { message, consumed },
            None => Decoded::Malformed,
        },
        FrameView::Partial => Decoded::Incomplete,
        FrameView::Invalid => Decoded::Malformed,
    }
}

/// Decodes the reply frame at the front of `bytes`.
pub open spec fn reply_frame_at(bytes: Seq<u8>) -> Decoded<Seq<Seq<char>>> {
    match frame_at(bytes) {
        FrameView::Whole { body, consumed } => match reply_of_body(body) {
            Some(message) => Decoded::Complete { message, consumed },
            None => Decoded::Malformed,
        },
        FrameView::Partial => Decoded::Incomplete,
        FrameView::Invalid => Decoded::Malformed,
    }
}

/// Decoding undoes encoding: the frame of a request, followed by
/// anything at all, decodes to that request and to the length of the
/// frame. It holds of every request whose body a length prefix can
/// announce.
pub proof fn lemma_request_decode_encode(m: WordRequestView, rest: Seq<u8>)
    requires
        request_body(m).len() <= u64::MAX,
    ensures
        request_frame_at(frame(request_body(m)) + rest) == (Decoded::Complete {
            message: m,
            consumed: frame(request_body(m)).len(),
        }),
{
    lemma_frame_at_frame(request_body(m), rest);
    lemma_request_of_body_encoded(m);
}

/// Encoding undoes decoding on every frame that encoding can produce:
/// such a frame decodes, and what it decodes to encodes to the same bytes.
pub proof fn lemma_request_encode_decode(bytes: Seq<u8>, m: WordRequestView)
    requires
        bytes == frame(request_body(m)),
        request_body(m).len() <= u64::MAX,
    ensures
        request_frame_at(bytes) matches Decoded::Complete { message, consumed } && frame(
            request_body(message),
        ) == bytes && consumed == bytes.len(),
{
    lemma_request_decode_encode(m, Seq::empty());
    assert(bytes + Seq::<u8>::empty() == bytes);
}

/// The body of a request reads back as that request.
pub proof fn lemma_request_of_body_encoded(m: WordRequestView)
    requires
        request_body(m).len() <= u64::MAX,
    ensures
        request_of_body(request_body(m)) == Some(m),
{
    let none = Seq::<u8>::empty();
    let kind_part = if m.kind == 0 {
        none
    } else {
        varint_field(TAG_KIND as nat, kind_on_wire(m.kind))
    };
    let start = WordRequestView { letters: Seq::empty(), kind: 0 };
    let mid = WordRequestView { letters: m.letters, kind: 0 };
    let k = m.kind;
    assert((k as u64) as i32 == k) by (bit_vector);
    assert(request_fields(kind_part, mid) == Some(m)) by {
        reveal_with_fuel(request_fields, 2);
        if m.kind != 0 {
            lemma_field_at_varint_field(TAG_KIND as nat, kind_on_wire(m.kind), none);
            assert(kind_part + none == kind_part);
            assert(kind_part.skip(kind_part.len() as int) == none);
            lemma_field_at_bounds(kind_part);
        }
    }
    if m.letters.len() == 0 {
        assert(request_body(m) == kind_part);
        assert(m.letters == Seq::<char>::empty());
        assert(mid == start);
    } else {
        let data = encode_utf8(m.letters);
        let letters_part = text_field(TAG_LETTERS as nat, m.letters);
        let body = request_body(m);
        assert(body == letters_part + kind_part);
        lemma_field_at_len_field(TAG_LETTERS as nat, data, kind_part);
        encode_utf8_valid_utf8(m.letters);
        encode_utf8_decode_utf8(m.letters);
        assert(body.skip(letters_part.len() as int) == kind_part);
        lemma_field_at_bounds(body);
    }
}

/// Once a buffer holds a whole request frame, or bytes that cannot become
/// one, more input changes nothing about what is decoded from its front.
pub proof fn lemma_request_frame_at_extend(bytes: Seq<u8>, more: Seq<u8>)
    requires
        !(request_frame_at(bytes) is Incomplete),
    ensures
        request_frame_at(bytes + more) == request_frame_at(bytes),
{
    lemma_frame_at_extend(bytes, more);
}

/// Decoding undoes encoding: the frame of a reply, followed by anything at
/// all, decodes to that reply and to the length of the frame. It holds of
/// every reply whose body a length prefix can announce.
pub proof fn lemma_reply_decode_encode(words: Seq<Seq<char>>, rest: Seq<u8>)
    requires
        reply_body(words).len() <= u64::MAX,
    ensures
        reply_frame_at(frame(reply_body(words)) + rest) == (Decoded::Complete {
            message: words,
            consumed: frame(reply_body(words)).len(),
        }),
{
    lemma_frame_at_frame(reply_body(words), rest);
    lemma_reply_fields_encoded(Seq::empty(), words, Seq::empty());
    assert(Seq::<Seq<char>>::empty() + words == words);
    assert(reply_body(words) + Seq::<u8>::empty() == reply_body(words));
}

/// Encoding undoes decoding on every frame that encoding can produce:
/// such a frame decodes, and what it decodes to encodes to the same bytes.
pub proof fn lemma_reply_encode_decode(bytes: Seq<u8>, words: Seq<Seq<char>>)
    requires
        bytes == frame(reply_body(words)),
        reply_body(words).len() <= u64::MAX,
    ensures
        reply_frame_at(bytes) matches Decoded::Complete { message, consumed } && frame(
            reply_body(message),
        ) == bytes && consumed == bytes.len(),
{
    lemma_reply_decode_encode(words, Seq::empty());
    assert(bytes + Seq::<u8>::empty() == bytes);
}

/// Reading the written fields of `words` adds exactly those words to
/// what was read before.
proof fn lemma_reply_fields_encoded(acc: Seq<Seq<char>>, words: Seq<Seq<char>>, tail: Seq<u8>)
    requires
        reply_body(words).len() <= u64::MAX,
    ensures
        reply_fields(reply_body(words) + tail, acc) == reply_fields(tail, acc + words),
    decreases words.len(),
{
    if words.len() == 0 {
        assert(reply_body(words) + tail == tail);
        assert(acc + words == acc);
    } else {
        let shorter = words.drop_last();
        let last = words.last();
        let field = text_field(TAG_WORDS as nat, last);
        let data = encode_utf8(last);
        assert(reply_body(words) + tail == reply_body(shorter) + (field + tail));
        lemma_reply_fields_encoded(acc, shorter, field + tail);
        lemma_field_at_len_field(TAG_WORDS as nat, data, tail);
        encode_utf8_valid_utf8(last);
        encode_utf8_decode_utf8(last);
        assert((field + tail).skip(field.len() as int) == tail);
        lemma_field_at_bounds(field + tail);
        assert((acc + shorter).push(last) == acc + words);
    }
}

/// Once a buffer holds a whole reply frame, or bytes that cannot become
/// one, more input changes nothing about what is decoded from its front.
pub proof fn lemma_reply_frame_at_extend(bytes: Seq<u8>, more: Seq<u8>)
    requires
        !(reply_frame_at(bytes) is Incomplete),
    ensures
        reply_frame_at(bytes + more) == reply_frame_at(bytes),
{
    lemma_frame_at_extend(bytes, more);
}

impl WordRequest {
    /// A request for `letters` under the rule `kind`.
    pub fn new(letters: String, kind: SolverKind) -> (request: WordRequest)
        ensures
            request.letters == letters,
            request.kind == kind.wire_value(),
    {
        WordRequest { letters, kind: kind.to_i32() }
    }

    /// The rule this request asks for. A wire value that names no rule
    /// counts as the default, Ouija.
    pub fn kind(&self) -> (kind: SolverKind)
        ensures
            kind == SolverKind::of_wire(self.kind),
    {
        if self.kind == 1 {
            SolverKind::Scrabble
        } else {
            SolverKind::Ouija
        }
    }

    /// The body of this request.
    pub fn encode_to_vec(&self) -> (body: Vec<u8>)
        ensures
            body@ == request_body(self@),
    {
        let mut body: Vec<u8> = Vec::new();
        if !self.letters.as_str().is_empty() {
            write_len_field(TAG_LETTERS, self.letters.as_str().as_bytes(), &mut body);
        }
        if self.kind != 0 {
            write_varint_field(TAG_KIND, self.kind as u64, &mut body);
        }
        assert(body@ == request_body(self@));
        body
    }

    /// Appends this request as one frame to `dst`, which grows as needed,
    /// and returns the number of bytes added.
    pub fn encode_length_delimited(&self, dst: &mut Vec<u8>) -> (written: usize)
        ensures
            final(dst)@ == old(dst)@ + frame(request_body(self@)),
            written == frame(request_body(self@)).len(),
            request_frame_at(frame(request_body(self@))) == (Decoded::Complete {
                message: self@,
                consumed: written as nat,
            }),
    {
        let body = self.encode_to_vec();
        proof {
            assert(body@.len() == body.len());
            lemma_request_decode_encode(self@, Seq::empty());
            assert(frame(request_body(self@)) + Seq::<u8>::empty() == frame(request_body(self@)));
        }
        write_frame(body.as_slice(), dst)
    }

    /// Decodes a request from a body, as it stands inside a frame.
    pub fn decode(body: &[u8]) -> (r: Option<WordRequest>)
        ensures
            match r {
                Some(request) => request_of_body(body@) == Some(request@),
                None => request_of_body(body@) is None,
            },
    {
        let mut letters = String::new();
        let mut kind: i32 = 0;
        let mut rest = body;
        while rest.len() > 0
            invariant
                request_of_body(body@) == request_fields(
                    rest@,
                    WordRequestView { letters: letters@, kind },
                ),
            decreases rest.len(),
        {
            proof {
                lemma_field_at_bounds(rest@);
            }
            match read_field(rest) {
                None => {
                    return None;
                },
                Some(field) => {
                    if field.tag == TAG_LETTERS {
                        if field.wire != WIRE_LEN {
                            return None;
                        }
                        match str_from_utf8(field.data) {
                            None => {
                                return None;
                            },
                            Some(text) => {
                                proof {
                                    encode_utf8_decode_utf8(text@);
                                }
                                letters = text.to_owned();
                            },
                        }
                    } else if field.tag == TAG_KIND {
                        if field.wire != WIRE_VARINT {
                            return None;
                        }
                        kind = #[verifier::truncate] (field.value as i32);
                    }
                    rest = field.rest;
                },
            }
        }
        Some(WordRequest { letters, kind })
    }

    /// Decodes the request frame at the front of `bytes`, and says how many
    /// bytes it takes.
    pub fn decode_length_delimited(bytes: &[u8]) -> (r: Result<(WordRequest, usize), FrameError>)
        ensures
            match r {
                Ok((request, consumed)) => request_frame_at(bytes@) == (Decoded::Complete {
                    message: request@,
                    consumed: consumed as nat,
                }),
                Err(FrameError::Incomplete) => request_frame_at(bytes@) is Incomplete,
                Err(FrameError::Malformed) => request_frame_at(bytes@) is Malformed,
            },
    {
        match split_frame(bytes) {
            Ok((body, consumed)) => match WordRequest::decode(body) {
                Some(request) => Ok((request, consumed)),
                None => Err(FrameError::Malformed),
            },
            Err(e) => Err(e),
        }
    }
}

impl WordsReply {
    /// The body of this reply.
    pub fn encode_to_vec(&self) -> (body: Vec<u8>)
        ensures
            body@ == reply_body(self@),
    {
        let mut body: Vec<u8> = Vec::new();
        let mut i: usize = 0;
        while i < self.words.len()
            invariant
                i <= self.words.len(),
                body@ == reply_body(self@.take(i as int)),
            decreases self.words.len() - i,
        {
            proof {
                let upto = self@.take(i + 1);
                assert(upto.drop_last() == self@.take(i as int));
                assert(upto.last() == self.words[i as int]@);
            }
            write_len_field(TAG_WORDS, self.words[i].as_str().as_bytes(), &mut body);
            i += 1;
        }
        proof {
            assert(self@.take(i as int) == self@);
        }
        body
    }

    /// Appends this reply as one frame to `dst`, which grows as needed,
    /// and returns the number of bytes added.
    pub fn encode_length_delimited(&self, dst: &mut Vec<u8>) -> (written: usize)
        ensures
            final(dst)@ == old(dst)@ + frame(reply_body(self@)),
            written == frame(reply_body(self@)).len(),
            reply_frame_at(frame(reply_body(self@))) == (Decoded::Complete {
                message: self@,
                consumed: written as nat,
            }),
    {
        let body = self.encode_to_vec();
        proof {
            assert(body@.len() == body.len());
            lemma_reply_decode_encode(self@, Seq::empty());
            assert(frame(reply_body(self@)) + Seq::<u8>::empty() == frame(reply_body(self@)));
        }
        write_frame(body.as_slice(), dst)
    }

    /// Decodes a reply from a body, as it stands inside a frame.
    pub fn decode(body: &[u8]) -> (r: Option<WordsReply>)
        ensures
            match r {
                Some(reply) => reply_of_body(body@) == Some(reply@),
                None => reply_of_body(body@) is None,
            },
    {
        let mut words: Vec<String> = Vec::new();
        let mut rest = body;
        assert(words.deep_view() == Seq::<Seq<char>>::empty());
        while rest.len() > 0
            invariant
                reply_of_body(body@) == reply_fields(rest@, words.deep_view()),
            decreases rest.len(),
        {
            proof {
                lemma_field_at_bounds(rest@);
            }
            match read_field(rest) {
                None => {
                    return None;
                },
                Some(field) => {
                    if field.tag == TAG_WORDS {
                        if field.wire != WIRE_LEN {
                            return None;
                        }
                        match str_from_utf8(field.data) {
                            None => {
                                return None;
                            },
                            Some(text) => {
                                proof {
                                    encode_utf8_decode_utf8(text@);
                                }
                                let ghost before = words.deep_view();
                                words.push(text.to_owned());
                                assert(words.deep_view() == before.push(text@));
                            },
                        }
                    }
                    rest = field.rest;
                },
            }
        }
        Some(WordsReply { words })
    }

    /// Decodes the reply frame at the front of `bytes`, and says how many
    /// bytes it takes.
    pub fn decode_length_delimited(bytes: &[u8]) -> (r: Result<(WordsReply, usize), FrameError>)
        ensures
            match r {
                Ok((reply, consumed)) => reply_frame_at(bytes@) == (Decoded::Complete {
                    message: reply@,
                    consumed: consumed as nat,
                }),
                Err(FrameError::Incomplete) => reply_frame_at(bytes@) is Incomplete,
                Err(FrameError::Malformed) => reply_frame_at(bytes@) is Malformed,
            },
    {
        match split_frame(bytes) {
            Ok((body, consumed)) => match WordsReply::decode(body) {
                Some(reply) => Ok((reply, consumed)),
                None => Err(FrameError::Malformed),
            },
            Err(e) => Err(e),
        }
    }
}

} // verus!
