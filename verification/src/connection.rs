//! The life of one connection, as a state machine.
//!
//! The handler owns the bytes that arrived and were not yet decoded, and
//! the reply that is being sent. It never touches a socket: whoever does
//! reports each outcome as an [`Event`] and carries out the [`Action`]
//! that comes back. A connection reads until its buffer holds a whole
//! request, answers it, sends the reply to the last byte, and only then
//! looks at what else has arrived.
//!
//! A connection rests in one of three phases: reading, writing, closed.
//! Dispatching, that is decoding the next request in the buffer and
//! computing its reply, needs nothing from the socket, so it happens
//! within a transition: on the way from reading to writing, and from one
//! reply written to the next.

use crate::frame::{frame, lemma_frame_at_bounds, FrameError};
use crate::messages::{
    reply_body, request_frame_at, Decoded, SolverKind, WordRequest, WordRequestView, WordsReply,
};
use crate::solver::{ouija_words, scrabble_words, NaiveSolver};
use crate::varint::{lemma_varint_bytes_len, lemma_varint_u64_bounds};
use crate::wire::append;
use vstd::prelude::*;
use vstd::slice::slice_subrange;

verus! {

/// Where a connection stands.
#[derive(Clone, Copy, Debug, PartialEq, Eq, Structural)]
pub enum Phase {
    /// Waiting for input.
    Reading,
    /// Sending a reply.
    Writing,
    /// Done; nothing more is read or written.
    Closed,
}

/// What the caller is to do next.
#[derive(Clone, Copy, Debug, PartialEq, Eq, Structural)]
pub enum Action {
    /// Read from the socket and report what came.
    Read,
    /// Write the pending bytes to the socket and report how many it took.
    Write,
    /// Close the socket.
    Close,
}

/// What happened on the socket.
#[derive(Clone, Copy, Debug)]
pub enum Event<'a> {
    /// A read returned these bytes; none means that the peer has closed.
    Read(&'a [u8]),
    /// A read failed.
    ReadFailed,
    /// A write took this many of the pending bytes.
    Wrote(usize),
    /// A write failed.
    WriteFailed,
}

/// What an event holds.
pub enum EventView {
    Read(Seq<u8>),
    ReadFailed,
    Wrote(nat),
    WriteFailed,
}

impl<'a> View for Event<'a> {
    type V = EventView;

    open spec fn view(&self) -> EventView {
        match *self {
            Event::Read(bytes) => EventView::Read(bytes@),
            Event::ReadFailed => EventView::ReadFailed,
            Event::Wrote(n) => EventView::Wrote(n as nat),
            Event::WriteFailed => EventView::WriteFailed,
        }
    }
}

/// What a connection holds.
pub struct ConnectionView {
    pub phase: Phase,
    /// The bytes that arrived and belong to no request answered so far.
    pub inbox: Seq<u8>,
    /// The reply that is being sent; empty unless the phase is `Writing`.
    pub outbox: Seq<u8>,
    /// How many bytes of the reply the socket has taken.
    pub sent: nat,
}

impl ConnectionView {
    /// A connection that has just been opened.
    pub open spec fn fresh() -> ConnectionView {
        ConnectionView { phase: Phase::Reading, inbox: Seq::empty(), outbox: Seq::empty(), sent: 0 }
    }

    /// A connection that is done. Its buffers are released.
    pub open spec fn ended() -> ConnectionView {
        ConnectionView { phase: Phase::Closed, inbox: Seq::empty(), outbox: Seq::empty(), sent: 0 }
    }

    /// The states that a connection can be in: while it writes, part of
    /// the reply is still to be sent; while it reads, no reply is held and
    /// the inbox holds no whole request and nothing malformed; once
    /// closed, it holds nothing.
    pub open spec fn wf(self) -> bool {
        match self.phase {
            Phase::Writing => self.sent < self.outbox.len(),
            Phase::Reading => self.outbox.len() == 0 && self.sent == 0 && request_frame_at(
                self.inbox,
            ) is Incomplete,
            Phase::Closed => self == ConnectionView::ended(),
        }
    }

    /// The bytes that the next write is to offer to the socket.
    pub open spec fn pending(self) -> Seq<u8> {
        if self.phase == Phase::Writing {
            self.outbox.skip(self.sent as int)
        } else {
            Seq::empty()
        }
    }
}

/// The words that answer a request.
pub open spec fn answer(dictionary: Seq<Seq<char>>, request: WordRequestView) -> Seq<Seq<char>> {
    match SolverKind::of_wire(request.kind) {
        SolverKind::Ouija => ouija_words(dictionary, request.letters),
        SolverKind::Scrabble => scrabble_words(dictionary, request.letters),
    }
}

/// The frame that answers a request.
pub open spec fn reply_frame(dictionary: Seq<Seq<char>>, request: WordRequestView) -> Seq<u8> {
    frame(reply_body(answer(dictionary, request)))
}

/// Looks at the inbox once the connection is free to take up a request:
/// a whole request is taken out and its reply is to be written; the start
/// of one means more reading; anything else closes the connection.
pub open spec fn dispatch(dictionary: Seq<Seq<char>>, inbox: Seq<u8>) -> (ConnectionView, Action) {
    match request_frame_at(inbox) {
        Decoded::Complete { message, consumed } => (
            ConnectionView {
                phase: Phase::Writing,
                inbox: inbox.skip(consumed as int),
                outbox: reply_frame(dictionary, message),
                sent: 0,
            },
            Action::Write,
        ),
        Decoded::Incomplete => (
            ConnectionView { phase: Phase::Reading, inbox, outbox: Seq::empty(), sent: 0 },
            Action::Read,
        ),
        Decoded::Malformed => (ConnectionView::ended(), Action::Close),
    }
}

/// One transition: the state and the action that follow from a state and
/// an event.
///
/// While reading, bytes that arrive join the inbox, which is then looked
/// at; a read of nothing, or a failed one, closes the connection. While
/// writing, the reply is sent on until the socket has taken all of it,
/// and then the inbox is looked at again; a failed write closes the
/// connection. An event that does not belong to the phase closes it too,
/// and a closed connection stays closed.
pub open spec fn step(dictionary: Seq<Seq<char>>, c: ConnectionView, event: EventView) -> (
    ConnectionView,
    Action,
) {
    match (c.phase, event) {
        (Phase::Reading, EventView::Read(bytes)) => if bytes.len() == 0 {
            (ConnectionView::ended(), Action::Close)
        } else {
            dispatch(dictionary, c.inbox + bytes)
        },
        (Phase::Writing, EventView::Wrote(n)) => if c.sent + n < c.outbox.len() {
            (
                ConnectionView {
                    phase: Phase::Writing,
                    inbox: c.inbox,
                    outbox: c.outbox,
                    sent: c.sent + n,
                },
                Action::Write,
            )
        } else {
            dispatch(dictionary, c.inbox)
        },
        _ => (ConnectionView::ended(), Action::Close),
    }
}

/// The handler of one connection.
pub struct Connection {
    phase: Phase,
    inbox: Vec<u8>,
    outbox: Vec<u8>,
    sent: usize,
}

impl View for Connection {
    type V = ConnectionView;

    closed spec fn view(&self) -> ConnectionView {
        ConnectionView {
            phase: self.phase,
            inbox: self.inbox@,
            outbox: self.outbox@,
            sent: self.sent as nat,
        }
    }
}

/// The size, in bytes, of the two buffers that a connection starts with.
/// They grow when a request or a reply needs more.
pub const INITIAL_CAPACITY: usize = 4096;

/// Drops the first `n` bytes of `buffer` and moves the rest to its front.
fn discard_front(buffer: &mut Vec<u8>, n: usize)
    requires
        n <= old(buffer).len(),
    ensures
        final(buffer)@ == old(buffer)@.skip(n as int),
{
    let ghost before = buffer@;
    let len = buffer.len();
    let mut i: usize = n;
    while i < len
        invariant
            n <= i <= len,
            buffer.len() == len,
            before.len() == len,
            forall|j: int| 0 <= j < i - n ==> buffer[j] == before[j + n],
            forall|j: int| i - n <= j < len ==> buffer[j] == before[j],
        decreases len - i,
    {
        let byte = buffer[i];
        buffer.set(i - n, byte);
        i += 1;
    }
    buffer.truncate(len - n);
    assert(buffer@ == before.skip(n as int));
}

impl Connection {
    /// A handler is always in a state that a connection can be in.
    #[verifier::type_invariant]
    closed spec fn well_formed(self) -> bool {
        self@.wf()
    }

    /// The handler of a connection that has just been opened. The first
    /// thing to do on it is to read.
    pub fn new() -> (connection: Connection)
        ensures
            connection@ == ConnectionView::fresh(),
            connection@.wf(),
    {
        let inbox: Vec<u8> = Vec::with_capacity(INITIAL_CAPACITY);
        let outbox: Vec<u8> = Vec::with_capacity(INITIAL_CAPACITY);
        proof {
            lemma_varint_u64_bounds(inbox@);
        }
        Connection { phase: Phase::Reading, inbox, outbox, sent: 0 }
    }

    /// Where the connection stands.
    pub fn phase(&self) -> (phase: Phase)
        ensures
            phase == self@.phase,
    {
        self.phase
    }

    /// The bytes that the next write is to offer to the socket: the part
    /// of the reply that the socket has not taken yet. There are none
    /// unless the connection is writing.
    pub fn pending(&self) -> (bytes: &[u8])
        ensures
            bytes@ == self@.pending(),
            self@.wf(),
    {
        proof {
            use_type_invariant(self);
        }
        match self.phase {
            Phase::Writing => slice_subrange(self.outbox.as_slice(), self.sent, self.outbox.len()),
            _ => slice_subrange(self.outbox.as_slice(), 0, 0),
        }
    }

    /// The handler of a connection that is done. It holds no buffers.
    fn ended() -> (connection: Connection)
        ensures
            connection@ == ConnectionView::ended(),
    {
        Connection { phase: Phase::Closed, inbox: Vec::new(), outbox: Vec::new(), sent: 0 }
    }

    /// Takes the buffers out of the handler, which is left closed.
    fn take_buffers(&mut self) -> (buffers: (Vec<u8>, Vec<u8>))
        ensures
            buffers.0@ == old(self)@.inbox,
            buffers.1@ == old(self)@.outbox,
            final(self)@ == ConnectionView::ended(),
    {
        let mut current = Connection::ended();
        core::mem::swap(self, &mut current);
        let Connection { inbox, outbox, .. } = current;
        (inbox, outbox)
    }

    /// Looks at an inbox for the next request to answer. The reply is
    /// written into `outbox`, whatever that held before.
    fn dispatch(solver: &NaiveSolver, inbox: Vec<u8>, outbox: Vec<u8>) -> (next: (
        Connection,
        Action,
    ))
        ensures
            (next.0@, next.1) == dispatch(solver@, inbox@),
    {
        let mut inbox = inbox;
        let mut outbox = outbox;
        outbox.clear();
        match WordRequest::decode_length_delimited(inbox.as_slice()) {
            Ok((request, consumed)) => {
                proof {
                    lemma_frame_at_bounds(inbox@);
                }
                let words = match request.kind() {
                    SolverKind::Ouija => solver.valid_words_ouija(request.letters.as_str()),
                    SolverKind::Scrabble => solver.valid_words_scrabble(request.letters.as_str()),
                };
                let reply = WordsReply { words };
                reply.encode_length_delimited(&mut outbox);
                discard_front(&mut inbox, consumed);
                proof {
                    lemma_varint_bytes_len(reply_body(reply@).len());
                    assert(outbox@ == reply_frame(solver@, request@));
                }
                (Connection { phase: Phase::Writing, inbox, outbox, sent: 0 }, Action::Write)
            },
            Err(FrameError::Incomplete) => (
                Connection { phase: Phase::Reading, inbox, outbox, sent: 0 },
                Action::Read,
            ),
            Err(FrameError::Malformed) => (Connection::ended(), Action::Close),
        }
    }

    /// Takes one event and says what to do next.
    pub fn handle(&mut self, solver: &NaiveSolver, event: Event<'_>) -> (action: Action)
        ensures
            (final(self)@, action) == step(solver@, old(self)@, event@),
            old(self)@.wf(),
            final(self)@.wf(),
    {
        proof {
            use_type_invariant(&*self);
            lemma_step_keeps_wf(solver@, self@, event@);
        }
        match (self.phase, event) {
            (Phase::Reading, Event::Read(bytes)) => {
                let (mut inbox, outbox) = self.take_buffers();
                if bytes.len() == 0 {
                    Action::Close
                } else {
                    append(&mut inbox, bytes);
                    let (next, action) = Connection::dispatch(solver, inbox, outbox);
                    *self = next;
                    action
                }
            },
            (Phase::Writing, Event::Wrote(n)) => {
                if n < self.outbox.len() - self.sent {
                    self.sent = self.sent + n;
                    Action::Write
                } else {
                    let (inbox, outbox) = self.take_buffers();
                    let (next, action) = Connection::dispatch(solver, inbox, outbox);
                    *self = next;
                    action
                }
            },
            _ => {
                *self = Connection::ended();
                Action::Close
            },
        }
    }
}

/// Every transition leads from a state a connection can be in to another
/// such state, and the action fits the new state: read while reading,
/// write while writing, close once closed.
pub proof fn lemma_step_keeps_wf(dictionary: Seq<Seq<char>>, c: ConnectionView, event: EventView)
    requires
        c.wf(),
    ensures
        step(dictionary, c, event).0.wf(),
        step(dictionary, c, event).1 == match step(dictionary, c, event).0.phase {
            Phase::Reading => Action::Read,
            Phase::Writing => Action::Write,
            Phase::Closed => Action::Close,
        },
{
    assert forall|body: Seq<u8>| #[trigger] frame(body).len() > 0 by {
        lemma_varint_bytes_len(body.len());
    }
}

} // verus!
