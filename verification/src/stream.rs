//! What a connection does over time: the replies it writes for a stream
//! of input, however the socket cuts that stream into reads and the
//! replies into writes.

use crate::connection::{
    dispatch, lemma_step_keeps_wf, reply_frame, step, ConnectionView, EventView, Phase,
};
use crate::frame::{frame, lemma_frame_at_bounds};
use crate::messages::{
    lemma_request_decode_encode, lemma_request_frame_at_extend, request_body, request_frame_at,
    Decoded, WordRequestView,
};
use crate::varint::{lemma_varint_bytes_len, lemma_varint_u64_bounds};
use vstd::prelude::*;

verus! {

/// The replies to the whole requests at the front of `stream`, one after
/// the other. Answering stops at the first thing that is not a whole
/// request.
pub open spec fn replies(dictionary: Seq<Seq<char>>, stream: Seq<u8>) -> Seq<u8>
    decreases stream.len(),
{
    match request_frame_at(stream) {
        Decoded::Complete { message, consumed } => {
            proof {
                lemma_frame_at_bounds(stream);
            }
            reply_frame(dictionary, message) + replies(dictionary, stream.skip(consumed as int))
        },
        _ => Seq::empty(),
    }
}

/// The state in which a connection comes to rest once it has answered
/// the whole requests at the front of `stream`: reading, with the start
/// of the next request in its inbox, or closed because of what follows
/// them.
pub open spec fn settled(stream: Seq<u8>) -> ConnectionView
    decreases stream.len(),
{
    match request_frame_at(stream) {
        Decoded::Complete { message, consumed } => {
            proof {
                lemma_frame_at_bounds(stream);
            }
            settled(stream.skip(consumed as int))
        },
        Decoded::Incomplete => ConnectionView {
            phase: Phase::Reading,
            inbox: stream,
            outbox: Seq::empty(),
            sent: 0,
        },
        Decoded::Malformed => ConnectionView::ended(),
    }
}

/// What a connection has yet to write if nothing more arrives: the rest
/// of the reply it is sending, and the replies to the requests that wait
/// in its inbox.
pub open spec fn owed(dictionary: Seq<Seq<char>>, c: ConnectionView) -> Seq<u8> {
    if c.phase == Phase::Writing {
        c.pending() + replies(dictionary, c.inbox)
    } else {
        Seq::empty()
    }
}

/// The state in which a connection comes to rest if nothing more
/// arrives: where it is, unless it is writing; else where the requests in
/// its inbox lead.
pub open spec fn at_rest(c: ConnectionView) -> ConnectionView {
    if c.phase == Phase::Writing {
        settled(c.inbox)
    } else {
        c
    }
}

/// The bytes that the socket takes when a write of the pending bytes
/// reports `n`.
pub open spec fn taken(c: ConnectionView, n: nat) -> Seq<u8> {
    if n < c.pending().len() {
        c.pending().take(n as int)
    } else {
        c.pending()
    }
}

/// Lets the connection write until it reads again or closes, with a
/// socket that takes all that it is offered. Gives the state reached and
/// the bytes written.
pub open spec fn drain(dictionary: Seq<Seq<char>>, c: ConnectionView) -> (ConnectionView, Seq<u8>)
    decreases c.inbox.len(),
{
    if c.phase == Phase::Writing {
        let next = dispatch(dictionary, c.inbox).0;
        if next.phase == Phase::Writing {
            proof {
                lemma_frame_at_bounds(c.inbox);
            }
            let (last, more) = drain(dictionary, next);
            (last, c.pending() + more)
        } else {
            (next, c.pending())
        }
    } else {
        (c, Seq::empty())
    }
}

/// Lets the connection write with a socket that takes `sizes[0]` bytes of
/// the first write, `sizes[1]` of the second, and so on, for as long as
/// there are sizes and the connection writes. Gives the state reached and
/// the bytes written.
pub open spec fn write_in_pieces(
    dictionary: Seq<Seq<char>>,
    c: ConnectionView,
    sizes: Seq<nat>,
) -> (ConnectionView, Seq<u8>)
    decreases sizes.len(),
{
    if sizes.len() == 0 || c.phase != Phase::Writing {
        (c, Seq::empty())
    } else {
        let next = step(dictionary, c, EventView::Wrote(sizes.first())).0;
        let (last, more) = write_in_pieces(dictionary, next, sizes.drop_first());
        (last, taken(c, sizes.first()) + more)
    }
}

/// Hands the connection one read after the other, letting it write out
/// all it has to after each. Gives the state reached and all the bytes
/// written.
pub open spec fn feed(dictionary: Seq<Seq<char>>, c: ConnectionView, reads: Seq<Seq<u8>>) -> (
    ConnectionView,
    Seq<u8>,
)
    decreases reads.len(),
{
    if reads.len() == 0 {
        (c, Seq::empty())
    } else {
        let after_read = step(dictionary, c, EventView::Read(reads.first())).0;
        let (rested, written) = drain(dictionary, after_read);
        let (last, more) = feed(dictionary, rested, reads.drop_first());
        (last, written + more)
    }
}

/// A socket that takes a reply whole is a socket that reports the full
/// size of every write.
pub proof fn lemma_drain_is_whole_writes(dictionary: Seq<Seq<char>>, c: ConnectionView)
    requires
        c.wf(),
        c.phase == Phase::Writing,
    ensures
        step(dictionary, c, EventView::Wrote(c.pending().len())).0 == dispatch(
            dictionary,
            c.inbox,
        ).0,
{
}

/// Looking at an inbox and then writing everything out brings the
/// connection to rest, having written the replies to the requests that
/// the inbox held.
pub proof fn lemma_drain_after_dispatch(dictionary: Seq<Seq<char>>, stream: Seq<u8>)
    ensures
        drain(dictionary, dispatch(dictionary, stream).0) == (
            settled(stream),
            replies(dictionary, stream),
        ),
    decreases stream.len(),
{
    match request_frame_at(stream) {
        Decoded::Complete { message, consumed } => {
            lemma_frame_at_bounds(stream);
            let rest = stream.skip(consumed as int);
            lemma_drain_after_dispatch(dictionary, rest);
            let writing = dispatch(dictionary, stream).0;
            assert(writing.pending() == reply_frame(dictionary, message));
            let next = dispatch(dictionary, rest).0;
            if next.phase != Phase::Writing {
                assert(replies(dictionary, rest) == Seq::<u8>::empty());
            }
        },
        _ => {},
    }
}

/// Input that arrives later does not change the answers to what arrived
/// before: the replies to a longer stream are the replies to its front
/// followed by the replies to what the front left over together with the
/// rest, and the connection comes to rest in the same state either way.
pub proof fn lemma_stream_extends(dictionary: Seq<Seq<char>>, stream: Seq<u8>, more: Seq<u8>)
    ensures
        settled(stream).phase == Phase::Reading ==> {
            &&& replies(dictionary, stream + more) == replies(dictionary, stream) + replies(
                dictionary,
                settled(stream).inbox + more,
            )
            &&& settled(stream + more) == settled(settled(stream).inbox + more)
        },
        settled(stream).phase != Phase::Reading ==> {
            &&& replies(dictionary, stream + more) == replies(dictionary, stream)
            &&& settled(stream + more) == ConnectionView::ended()
            &&& settled(stream) == ConnectionView::ended()
        },
    decreases stream.len(),
{
    match request_frame_at(stream) {
        Decoded::Complete { message, consumed } => {
            lemma_frame_at_bounds(stream);
            lemma_request_frame_at_extend(stream, more);
            let rest = stream.skip(consumed as int);
            assert((stream + more).skip(consumed as int) == rest + more);
            lemma_stream_extends(dictionary, rest, more);
        },
        Decoded::Incomplete => {
            assert(replies(dictionary, stream) + replies(dictionary, stream + more) == replies(
                dictionary,
                stream + more,
            ));
        },
        Decoded::Malformed => {
            lemma_request_frame_at_extend(stream, more);
        },
    }
}

/// Where a connection comes to rest, it can stay: the state is one a
/// connection can be in, and it is not writing.
pub proof fn lemma_settled_wf(stream: Seq<u8>)
    ensures
        settled(stream).wf(),
        settled(stream).phase != Phase::Writing,
        settled(stream).phase == Phase::Reading ==> settled(settled(stream).inbox) == settled(
            stream,
        ),
    decreases stream.len(),
{
    match request_frame_at(stream) {
        Decoded::Complete { message, consumed } => {
            lemma_frame_at_bounds(stream);
            lemma_settled_wf(stream.skip(consumed as int));
        },
        _ => {},
    }
}

/// A closed connection ignores whatever is read.
pub proof fn lemma_feed_closed(dictionary: Seq<Seq<char>>, reads: Seq<Seq<u8>>)
    ensures
        feed(dictionary, ConnectionView::ended(), reads) == (
            ConnectionView::ended(),
            Seq::<u8>::empty(),
        ),
    decreases reads.len(),
{
    if reads.len() > 0 {
        lemma_feed_closed(dictionary, reads.drop_first());
        assert(Seq::<u8>::empty() + Seq::<u8>::empty() == Seq::<u8>::empty());
    }
}

/// What a reading connection writes, and where it comes to rest, depends
/// only on the bytes it is handed, not on how they are cut into reads:
/// it is what the bytes in its inbox, followed by all the bytes read,
/// call for.
pub proof fn lemma_feed_by_stream(
    dictionary: Seq<Seq<char>>,
    c: ConnectionView,
    reads: Seq<Seq<u8>>,
)
    requires
        c.wf(),
        c.phase == Phase::Reading,
        forall|i: int| 0 <= i < reads.len() ==> (#[trigger] reads[i]).len() > 0,
    ensures
        feed(dictionary, c, reads) == (
            settled(c.inbox + reads.flatten()),
            replies(dictionary, c.inbox + reads.flatten()),
        ),
    decreases reads.len(),
{
    if reads.len() == 0 {
        assert(c.inbox + reads.flatten() == c.inbox);
        assert(c.outbox == Seq::<u8>::empty());
    } else {
        let first = reads.first();
        let others = reads.drop_first();
        let stream = c.inbox + first;
        let flat = others.flatten();
        assert(c.inbox + reads.flatten() == stream + flat);
        lemma_drain_after_dispatch(dictionary, stream);
        lemma_stream_extends(dictionary, stream, flat);
        lemma_settled_wf(stream);
        let rested = settled(stream);
        if rested.phase == Phase::Reading {
            lemma_feed_by_stream(dictionary, rested, others);
        } else {
            lemma_feed_closed(dictionary, others);
            assert(replies(dictionary, stream) + Seq::<u8>::empty() == replies(
                dictionary,
                stream,
            ));
        }
    }
}

/// Framing is robust against the way input arrives: a reading connection
/// that gets its input in any number of reads, down to one byte at a
/// time, writes the same bytes and ends in the same state as one that
/// gets all of it in a single read.
pub proof fn lemma_reads_may_split_anywhere(
    dictionary: Seq<Seq<char>>,
    c: ConnectionView,
    reads: Seq<Seq<u8>>,
)
    requires
        c.wf(),
        c.phase == Phase::Reading,
        reads.len() > 0,
        forall|i: int| 0 <= i < reads.len() ==> (#[trigger] reads[i]).len() > 0,
    ensures
        feed(dictionary, c, reads) == feed(dictionary, c, seq![reads.flatten()]),
{
    let whole = seq![reads.flatten()];
    lemma_feed_by_stream(dictionary, c, reads);
    assert(reads.flatten().len() > 0) by {
        assert(reads.flatten() == reads.first() + reads.drop_first().flatten());
    }
    whole.lemma_flatten_one_element();
    lemma_feed_by_stream(dictionary, c, whole);
}

/// Two requests that arrive back to back in one read are both answered,
/// each with its own reply, in the order in which they came.
pub proof fn lemma_back_to_back_requests(
    dictionary: Seq<Seq<char>>,
    first: WordRequestView,
    second: WordRequestView,
)
    requires
        request_body(first).len() <= u64::MAX,
        request_body(second).len() <= u64::MAX,
    ensures
        feed(
            dictionary,
            ConnectionView::fresh(),
            seq![frame(request_body(first)) + frame(request_body(second))],
        ) == (
            ConnectionView::fresh(),
            reply_frame(dictionary, first) + reply_frame(dictionary, second),
        ),
{
    let a = frame(request_body(first));
    let b = frame(request_body(second));
    let none = Seq::<u8>::empty();
    lemma_fresh_wf();
    lemma_replies_to_request(dictionary, first, b);
    lemma_replies_to_request(dictionary, second, none);
    assert(b + none == b);
    lemma_replies_to_nothing(dictionary);
    lemma_feed_by_stream(dictionary, ConnectionView::fresh(), seq![a + b]);
    seq![a + b].lemma_flatten_one_element();
    assert(none + (a + b) == a + b);
    assert(reply_frame(dictionary, first) + (reply_frame(dictionary, second) + none)
        == reply_frame(dictionary, first) + reply_frame(dictionary, second));
    lemma_varint_bytes_len(request_body(first).len());
    lemma_varint_bytes_len(request_body(second).len());
}

/// Answering is idempotent: a connection that waits with an empty inbox
/// answers a request with the reply that the dictionary and the request
/// call for and is then back in the state it was in, so the same request,
/// sent again, gets the same bytes again.
pub proof fn lemma_same_request_same_reply(
    dictionary: Seq<Seq<char>>,
    c: ConnectionView,
    request: WordRequestView,
)
    requires
        c.wf(),
        c.phase == Phase::Reading,
        c.inbox.len() == 0,
        request_body(request).len() <= u64::MAX,
    ensures
        feed(dictionary, c, seq![frame(request_body(request))]) == (
            c,
            reply_frame(dictionary, request),
        ),
        feed(dictionary, c, seq![frame(request_body(request)), frame(request_body(request))]) == (
            c,
            reply_frame(dictionary, request) + reply_frame(dictionary, request),
        ),
{
    let f = frame(request_body(request));
    let r = reply_frame(dictionary, request);
    let none = Seq::<u8>::empty();
    assert(c.inbox == none);
    assert(c.outbox == none);
    assert(f.len() > 0) by {
        lemma_varint_bytes_len(request_body(request).len());
    }
    lemma_replies_to_nothing(dictionary);
    assert(replies(dictionary, f) == r && settled(f) == c) by {
        lemma_replies_to_request(dictionary, request, none);
        assert(f + none == f);
        assert(r + none == r);
    }
    assert(replies(dictionary, f + f) == r + r && settled(f + f) == c) by {
        lemma_replies_to_request(dictionary, request, f);
    }
    let once = seq![f];
    let twice = seq![f, f];
    assert(feed(dictionary, c, once) == (c, r)) by {
        once.lemma_flatten_one_element();
        lemma_feed_by_stream(dictionary, c, once);
        assert(none + f == f);
    }
    assert(feed(dictionary, c, twice) == (c, r + r)) by {
        once.lemma_flatten_one_element();
        assert(twice.drop_first() == once);
        assert(twice.flatten() == f + f);
        lemma_feed_by_stream(dictionary, c, twice);
        assert(none + (f + f) == f + f);
    }
}

/// However little the socket takes of a write, nothing is lost and
/// nothing is sent twice: what it took, followed by what the connection
/// then still owes, is what the connection owed before. Nor does it
/// change where the connection will come to rest.
pub proof fn lemma_write_conserves(dictionary: Seq<Seq<char>>, c: ConnectionView, n: nat)
    requires
        c.wf(),
        c.phase == Phase::Writing,
    ensures
        taken(c, n) + owed(dictionary, step(dictionary, c, EventView::Wrote(n)).0) == owed(
            dictionary,
            c,
        ),
        at_rest(step(dictionary, c, EventView::Wrote(n)).0) == at_rest(c),
{
    let next = step(dictionary, c, EventView::Wrote(n)).0;
    let pending = c.pending();
    if n < pending.len() {
        assert(next.pending() == pending.skip(n as int));
        assert(pending.take(n as int) + pending.skip(n as int) == pending);
        assert(pending.take(n as int) + (pending.skip(n as int) + replies(dictionary, c.inbox))
            == pending + replies(dictionary, c.inbox));
    } else {
        lemma_owed_after_dispatch(dictionary, c.inbox);
    }
}

/// A reply of any size reaches the peer whole and in order, in however
/// many writes of whatever sizes the socket takes it: after any run of
/// writes, the bytes taken so far, followed by what the connection still
/// owes, are what it owed at the start.
pub proof fn lemma_pieces_deliver(dictionary: Seq<Seq<char>>, c: ConnectionView, sizes: Seq<nat>)
    requires
        c.wf(),
    ensures
        write_in_pieces(dictionary, c, sizes).1 + owed(
            dictionary,
            write_in_pieces(dictionary, c, sizes).0,
        ) == owed(dictionary, c),
        at_rest(write_in_pieces(dictionary, c, sizes).0) == at_rest(c),
        write_in_pieces(dictionary, c, sizes).0.wf(),
    decreases sizes.len(),
{
    if sizes.len() == 0 || c.phase != Phase::Writing {
        assert(Seq::<u8>::empty() + owed(dictionary, c) == owed(dictionary, c));
    } else {
        let n = sizes.first();
        let next = step(dictionary, c, EventView::Wrote(n)).0;
        lemma_step_keeps_wf(dictionary, c, EventView::Wrote(n));
        lemma_write_conserves(dictionary, c, n);
        lemma_pieces_deliver(dictionary, next, sizes.drop_first());
        let (last, more) = write_in_pieces(dictionary, next, sizes.drop_first());
        assert((taken(c, n) + more) + owed(dictionary, last) == taken(c, n) + (more + owed(
            dictionary,
            last,
        )));
    }
}

/// Writing everything out brings a connection to rest, having written
/// what it owed.
pub proof fn lemma_drain_pays_what_is_owed(dictionary: Seq<Seq<char>>, c: ConnectionView)
    requires
        c.wf(),
    ensures
        drain(dictionary, c) == (at_rest(c), owed(dictionary, c)),
{
    if c.phase == Phase::Writing {
        lemma_drain_after_dispatch(dictionary, c.inbox);
        let next = dispatch(dictionary, c.inbox).0;
        if next.phase != Phase::Writing {
            assert(c.pending() + Seq::<u8>::empty() == c.pending());
        }
    }
}

/// The sizes of the writes do not matter: once the connection has stopped
/// writing, it has written the same bytes and is in the same state as if
/// the socket had taken every reply whole.
pub proof fn lemma_pieces_equal_whole(
    dictionary: Seq<Seq<char>>,
    c: ConnectionView,
    sizes: Seq<nat>,
)
    requires
        c.wf(),
        write_in_pieces(dictionary, c, sizes).0.phase != Phase::Writing,
    ensures
        write_in_pieces(dictionary, c, sizes) == drain(dictionary, c),
{
    lemma_pieces_deliver(dictionary, c, sizes);
    lemma_drain_pays_what_is_owed(dictionary, c);
    let (last, written) = write_in_pieces(dictionary, c, sizes);
    assert(written + Seq::<u8>::empty() == written);
}

/// What a connection owes right after it has looked at an inbox is the
/// replies to the requests in that inbox.
proof fn lemma_owed_after_dispatch(dictionary: Seq<Seq<char>>, inbox: Seq<u8>)
    ensures
        owed(dictionary, dispatch(dictionary, inbox).0) == replies(dictionary, inbox),
{
    match request_frame_at(inbox) {
        Decoded::Complete { message, consumed } => {
            let writing = dispatch(dictionary, inbox).0;
            assert(writing.pending() == reply_frame(dictionary, message));
        },
        _ => {},
    }
}

/// A connection that has just been opened is in a state a connection can
/// be in.
pub proof fn lemma_fresh_wf()
    ensures
        ConnectionView::fresh().wf(),
{
    lemma_varint_u64_bounds(Seq::<u8>::empty());
}

/// No input, no replies.
proof fn lemma_replies_to_nothing(dictionary: Seq<Seq<char>>)
    ensures
        replies(dictionary, Seq::empty()) == Seq::<u8>::empty(),
        settled(Seq::empty()) == ConnectionView::fresh(),
{
    lemma_varint_u64_bounds(Seq::<u8>::empty());
}

/// The replies to a stream that starts with the frame of a request are
/// the reply to that request and then the replies to the rest.
proof fn lemma_replies_to_request(
    dictionary: Seq<Seq<char>>,
    request: WordRequestView,
    rest: Seq<u8>,
)
    requires
        request_body(request).len() <= u64::MAX,
    ensures
        replies(dictionary, frame(request_body(request)) + rest) == reply_frame(
            dictionary,
            request,
        ) + replies(dictionary, rest),
        settled(frame(request_body(request)) + rest) == settled(rest),
{
    let f = frame(request_body(request));
    lemma_request_decode_encode(request, rest);
    assert((f + rest).skip(f.len() as int) == rest);
}

} // verus!
