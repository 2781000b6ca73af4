use crate::cipher::{
    cfb8_transform, concat, lemma_chunking_independence, transform_chunks, CipherEngine,
    MAX_UPDATE_LEN,
};
use crate::protocol::{
    encode_response, handshake_bytes, handshake_outcome, lemma_response_frame_checks,
    parse_handshake, response_frame, response_length_outcome, FrameError, HandshakeError,
    SessionView, HANDSHAKE_LEN, LENGTH_FIELD_LEN,
};
use vstd::prelude::*;

verus! {

/// How many bytes the daemon reads from a streaming connection at once.
pub const READ_CHUNK_LEN: usize = 8192;

/// Why a connection was closed with an error. None of these reaches beyond
/// the connection it happened on.
#[derive(Debug, Clone, Copy, PartialEq, Eq, Structural)]
pub enum ConnectionError {
    /// The handshake's first byte names no direction.
    InvalidDirection(u8),
    /// The peer went away before the handshake was complete.
    IncompleteHandshake,
    /// Reading from or writing to the channel failed.
    ChannelIO,
    /// The cipher rejected its setup or an update.
    CipherFailure,
}

/// What the channel reported to the connection.
#[derive(Debug)]
pub enum Event {
    /// A read returned these bytes; none at all means the peer closed its end.
    Received(Vec<u8>),
    /// The peer closed its end.
    EndOfStream,
    /// A read failed.
    ReadFailed,
    /// Writing a response failed.
    WriteFailed,
}

/// What the connection asks of the channel next.
#[derive(Debug)]
pub enum Action {
    /// Read more; nothing to send.
    Wait,
    /// Send these bytes, then read more.
    Reply(Vec<u8>),
    /// Close the connection: the peer ended it cleanly.
    Close,
    /// Close the connection and report the error.
    Fail(ConnectionError),
}

enum State {
    Handshaking(Vec<u8>),
    Streaming(CipherEngine),
    Closed,
}

/// One connection of the daemon, from its handshake to its end.
pub struct Connection {
    state: State,
}

/// A connection as plain values.
pub enum ConnectionView {
    /// The handshake bytes received so far.
    Handshaking(Seq<u8>),
    /// The session, and what its cipher has consumed.
    Streaming(SessionView, Seq<u8>),
    Closed,
}

impl View for Connection {
    type V = ConnectionView;

    closed spec fn view(&self) -> ConnectionView {
        match self.state {
            State::Handshaking(b) => ConnectionView::Handshaking(b@),
            State::Streaming(e) => ConnectionView::Streaming(e.session(), e.consumed()),
            State::Closed => ConnectionView::Closed,
        }
    }
}

/// Copies `src` to the end of `dst`.
fn append_bytes(dst: &mut Vec<u8>, src: &[u8])
    ensures
        final(dst)@ == old(dst)@ + src@,
{
    let mut i: usize = 0;
    while i < src.len()
        invariant
            i <= src@.len(),
            dst@ == old(dst)@ + src@.subrange(0, i as int),
        decreases src@.len() - i,
    {
        dst.push(src[i]);
        i = i + 1;
        assert(dst@ =~= old(dst)@ + src@.subrange(0, i as int));
    }
    assert(src@.subrange(0, i as int) =~= src@);
}

/// The event ends the stream: the peer closed its end, or a read returned nothing.
pub open spec fn ends_stream(event: Event) -> bool {
    match event {
        Event::EndOfStream => true,
        Event::Received(x) => x@.len() == 0,
        _ => false,
    }
}

/// The event reports a failed read or write.
pub open spec fn channel_failed(event: Event) -> bool {
    event is ReadFailed || event is WriteFailed
}

impl Connection {
    /// The state is consistent: a handshake in progress is not yet complete,
    /// and a cipher is bound to its session.
    pub closed spec fn wf(&self) -> bool {
        match self.state {
            State::Handshaking(b) => b@.len() < HANDSHAKE_LEN,
            State::Streaming(e) => e.wf(),
            State::Closed => true,
        }
    }

    /// A connection just accepted, waiting for its handshake.
    pub fn new() -> (r: Connection)
        ensures
            r.wf(),
            r@ == ConnectionView::Handshaking(Seq::empty()),
    {
        Connection { state: State::Handshaking(Vec::new()) }
    }

    /// The connection has ended.
    pub fn is_closed(&self) -> (r: bool)
        ensures
            r == (self@ is Closed),
    {
        match self.state {
            State::Closed => true,
            _ => false,
        }
    }

    /// How many bytes the next read should ask for: the rest of the handshake
    /// while it is incomplete, a chunk once streaming.
    pub fn wanted(&self) -> (r: usize)
        requires
            self.wf(),
        ensures
            self@ matches ConnectionView::Handshaking(b) ==> r == HANDSHAKE_LEN - b.len(),
            self@ is Streaming ==> r == READ_CHUNK_LEN,
            self@ is Closed ==> r == 0,
    {
        match &self.state {
            State::Handshaking(b) => HANDSHAKE_LEN - b.len(),
            State::Streaming(_) => READ_CHUNK_LEN,
            State::Closed => 0,
        }
    }

    /// Moves the connection on by one event, and says what the channel must do.
    ///
    /// A handshake may arrive in pieces; bytes that follow it in the same read
    /// are the first request. Each request is answered with a frame holding its
    /// transformed bytes. The connection closes on a clean end of stream with no
    /// error, and on any failure with that failure.
    pub fn on_event(&mut self, event: Event) -> (r: Action)
        requires
            old(self).wf(),
            event matches Event::Received(x) ==> x@.len() <= MAX_UPDATE_LEN,
        ensures
            final(self).wf(),
            old(self)@ is Closed ==> r is Close && final(self)@ is Closed,
            old(self)@ is Streaming && ends_stream(event) ==> r is Close && final(self)@ is Closed,
            old(self)@ is Handshaking && ends_stream(event) ==> r == Action::Fail(
                ConnectionError::IncompleteHandshake,
            ) && final(self)@ is Closed,
            !(old(self)@ is Closed) && channel_failed(event) ==> r == Action::Fail(
                ConnectionError::ChannelIO,
            ) && final(self)@ is Closed,
            old(self)@ matches ConnectionView::Streaming(s, c) ==> event matches Event::Received(x)
                ==> x@.len() > 0 ==> {
                ||| r matches Action::Reply(f) && f@ == response_frame(
                    cfb8_transform(handshake_bytes(s), c, x@),
                ) && final(self)@ == ConnectionView::Streaming(s, c + x@)
                ||| r == Action::Fail(ConnectionError::CipherFailure) && final(self)@ is Closed
            },
            old(self)@ matches ConnectionView::Handshaking(h) ==> event matches Event::Received(x)
                ==> x@.len() > 0 ==> (h + x@).len() < HANDSHAKE_LEN ==> r is Wait && final(self)@
                == ConnectionView::Handshaking(h + x@),
            old(self)@ matches ConnectionView::Handshaking(h) ==> (event matches Event::Received(x)
                ==> ((h + x@).len() >= HANDSHAKE_LEN ==> (handshake_outcome(
                (h + x@).take(HANDSHAKE_LEN as int),
            ) matches Err(HandshakeError::InvalidDirection(d)) ==> r == Action::Fail(
                ConnectionError::InvalidDirection(d),
            ) && final(self)@ is Closed))),
            old(self)@ matches ConnectionView::Handshaking(h) ==> (event matches Event::Received(x)
                ==> ((h + x@).len() >= HANDSHAKE_LEN ==> (handshake_outcome(
                (h + x@).take(HANDSHAKE_LEN as int),
            ) matches Ok(s) ==> {
                let rest = (h + x@).skip(HANDSHAKE_LEN as int);
                ||| rest.len() == 0 && r is Wait && final(self)@ == ConnectionView::Streaming(
                    s,
                    Seq::empty(),
                )
                ||| rest.len() > 0 && (r matches Action::Reply(f) && f@ == response_frame(
                    cfb8_transform(handshake_bytes(s), Seq::empty(), rest),
                ) && final(self)@ == ConnectionView::Streaming(s, rest))
                ||| r == Action::Fail(ConnectionError::CipherFailure) && final(self)@ is Closed
            }))),
    {
        let mut state = State::Closed;
        core::mem::swap(&mut self.state, &mut state);
        match state {
            State::Closed => Action::Close,
            State::Streaming(mut engine) => match event {
                Event::EndOfStream => Action::Close,
                Event::ReadFailed => Action::Fail(ConnectionError::ChannelIO),
                Event::WriteFailed => Action::Fail(ConnectionError::ChannelIO),
                Event::Received(x) => {
                    if x.len() == 0 {
                        Action::Close
                    } else {
                        let a = Self::serve(&mut engine, x.as_slice());
                        if let Action::Reply(_) = a {
                            self.state = State::Streaming(engine);
                        }
                        a
                    }
                },
            },
            State::Handshaking(mut h) => match event {
                Event::EndOfStream => Action::Fail(ConnectionError::IncompleteHandshake),
                Event::ReadFailed => Action::Fail(ConnectionError::ChannelIO),
                Event::WriteFailed => Action::Fail(ConnectionError::ChannelIO),
                Event::Received(x) => {
                    if x.len() == 0 {
                        return Action::Fail(ConnectionError::IncompleteHandshake);
                    }
                    let ghost all = h@ + x@;
                    append_bytes(&mut h, x.as_slice());
                    if h.len() < HANDSHAKE_LEN {
                        self.state = State::Handshaking(h);
                        return Action::Wait;
                    }
                    let rest = h.split_off(HANDSHAKE_LEN);
                    assert(h@ == all.take(HANDSHAKE_LEN as int));
                    assert(rest@ == all.skip(HANDSHAKE_LEN as int));
                    match parse_handshake(h.as_slice()) {
                        Err(HandshakeError::InvalidDirection(d)) => Action::Fail(
                            ConnectionError::InvalidDirection(d),
                        ),
                        Err(HandshakeError::IncompleteHandshake) => Action::Fail(
                            ConnectionError::IncompleteHandshake,
                        ),
                        Ok(session) => match CipherEngine::new(session) {
                            Err(_) => Action::Fail(ConnectionError::CipherFailure),
                            Ok(mut engine) => {
                                if rest.len() == 0 {
                                    self.state = State::Streaming(engine);
                                    Action::Wait
                                } else {
                                    let a = Self::serve(&mut engine, rest.as_slice());
                                    if let Action::Reply(_) = a {
                                        self.state = State::Streaming(engine);
                                    }
                                    a
                                }
                            },
                        },
                    }
                },
            },
        }
    }

    /// Transforms one request and frames the response.
    fn serve(engine: &mut CipherEngine, request: &[u8]) -> (r: Action)
        requires
            old(engine).wf(),
            0 < request@.len() <= MAX_UPDATE_LEN,
        ensures
            final(engine).wf(),
            final(engine).session() == old(engine).session(),
            r matches Action::Reply(f) ==> f@ == response_frame(
                cfb8_transform(handshake_bytes(old(engine).session()), old(engine).consumed(), request@),
            ) && final(engine).consumed() == old(engine).consumed() + request@,
            r is Reply || r == Action::Fail(ConnectionError::CipherFailure),
    {
        match engine.update(request) {
            Ok(out) => Action::Reply(encode_response(out.as_slice())),
            Err(_) => Action::Fail(ConnectionError::CipherFailure),
        }
    }
}

/// Every response that a session sends holds exactly as many transformed
/// bytes as the request it answers, announces that length, and so passes the
/// requester's length check.
pub proof fn lemma_reply_answers_request(s: SessionView, consumed: Seq<u8>, request: Seq<u8>)
    requires
        request.len() <= MAX_UPDATE_LEN,
    ensures
        ({
            let frame = response_frame(cfb8_transform(handshake_bytes(s), consumed, request));
            &&& frame.skip(LENGTH_FIELD_LEN as int).len() == request.len()
            &&& response_length_outcome(frame.take(LENGTH_FIELD_LEN as int), request.len() as usize)
                == Ok::<usize, FrameError>(request.len() as usize)
        }),
{
    let payload = cfb8_transform(handshake_bytes(s), consumed, request);
    lemma_response_frame_checks(payload, request.len() as usize);
}

/// The payloads, laid end to end, of the frames that a streaming connection
/// with session `s` sends when it has consumed `consumed` and then receives
/// `chunks` one after the other.
pub open spec fn reply_payloads(s: SessionView, consumed: Seq<u8>, chunks: Seq<Seq<u8>>) -> Seq<u8>
    decreases chunks.len(),
{
    if chunks.len() == 0 {
        Seq::empty()
    } else {
        response_frame(cfb8_transform(handshake_bytes(s), consumed, chunks[0])).skip(
            LENGTH_FIELD_LEN as int,
        ) + reply_payloads(s, consumed + chunks[0], chunks.drop_first())
    }
}

/// However a stream is cut into requests, the payloads of the responses laid
/// end to end are the stream transformed as one piece.
pub proof fn lemma_replies_independent_of_chunking(
    s: SessionView,
    consumed: Seq<u8>,
    chunks: Seq<Seq<u8>>,
)
    requires
        forall|i: int| 0 <= i < chunks.len() ==> #[trigger] chunks[i].len() <= MAX_UPDATE_LEN,
    ensures
        reply_payloads(s, consumed, chunks) == cfb8_transform(
            handshake_bytes(s),
            consumed,
            concat(chunks),
        ),
{
    lemma_payloads_are_transforms(s, consumed, chunks);
    lemma_chunking_independence(handshake_bytes(s), consumed, chunks);
}

/// The payloads are the transforms of the chunks, one after the other.
proof fn lemma_payloads_are_transforms(s: SessionView, consumed: Seq<u8>, chunks: Seq<Seq<u8>>)
    requires
        forall|i: int| 0 <= i < chunks.len() ==> #[trigger] chunks[i].len() <= MAX_UPDATE_LEN,
    ensures
        reply_payloads(s, consumed, chunks) == transform_chunks(handshake_bytes(s), consumed, chunks),
    decreases chunks.len(),
{
    if chunks.len() > 0 {
        let rest = chunks.drop_first();
        assert forall|i: int| 0 <= i < rest.len() implies #[trigger] rest[i].len()
            <= MAX_UPDATE_LEN by {
            assert(rest[i] == chunks[i + 1]);
        }
        lemma_payloads_are_transforms(s, consumed + chunks[0], rest);
        let payload = cfb8_transform(handshake_bytes(s), consumed, chunks[0]);
        lemma_response_frame_checks(payload, chunks[0].len() as usize);
    }
}

} // verus!
