//! One connection: the protocol state machine between the accepted socket and
//! the frames that go in and out of it.
//!
//! The connection never touches its socket. It is told what reading the socket
//! gave and what became of the bytes it handed out for writing, and it says in
//! its interest set which readiness event it waits for next.

use vstd::prelude::*;
use vstd::string::StringSliceAdditionalSpecFns;
use crate::bytes::append_bytes;
use crate::frame::{
    encode, frame_views, lemma_decode_wire_bytes, lemma_frame_views_push,
    lemma_need_more_data_is_short, lemma_wire_all_len, wire_all, wire_bytes, Frame, FrameView,
    Opcode, ProtocolError,
};
use crate::handshake::{
    accept_value, gen_key, handshake_response, lemma_response_is_not_empty, response_bytes,
    FeedOutcome, HeaderMap, MAX_KEY_LEN, SEC_WEBSOCKET_KEY,
};
use crate::stream::{
    decode_frames, decode_stream, lemma_decode_stream_extend, lemma_decode_stream_rest,
    StreamEnd,
};

verus! {

/// The readiness events that a connection waits for.
#[derive(Clone, Copy, Debug, PartialEq, Eq, Structural)]
pub struct InterestSet {
    pub readable: bool,
    pub writable: bool,
}

impl InterestSet {
    /// Whether the set holds no event.
    pub open spec fn is_empty(self) -> bool {
        !self.readable && !self.writable
    }

    /// No event.
    pub fn none() -> (set: InterestSet)
        ensures
            set == (InterestSet { readable: false, writable: false }),
    {
        InterestSet { readable: false, writable: false }
    }

    /// Readable events alone.
    pub fn readable() -> (set: InterestSet)
        ensures
            set == (InterestSet { readable: true, writable: false }),
    {
        InterestSet { readable: true, writable: false }
    }

    /// Writable events alone.
    pub fn writable() -> (set: InterestSet)
        ensures
            set == (InterestSet { readable: false, writable: true }),
    {
        InterestSet { readable: false, writable: true }
    }
}

/// Where a connection stands in the protocol.
#[derive(Clone, Copy, Debug, PartialEq, Eq, Structural)]
pub enum ConnectionState {
    /// The upgrade request is being read.
    AwaitingHandshake,
    /// The upgrade request was accepted and the response is not yet written.
    HandshakeResponsePending,
    /// Frames go in and out.
    Open,
    /// Terminal: the connection waits to be removed.
    Closed,
}

/// The limits that a connection keeps to.
#[derive(Clone, Copy, Debug, PartialEq, Eq, Structural)]
pub struct Limits {
    /// The longest payload that is accepted from the client.
    pub max_payload: usize,
    /// The most frames that may wait in the queue for writing. A frame
    /// offered beyond it closes the connection.
    pub max_queued: usize,
}

/// Why a connection closed.
#[derive(Clone, Copy, Debug, PartialEq, Eq, Structural)]
pub enum CloseReason {
    /// Reading or writing the socket failed.
    IoError,
    /// The upgrade request was malformed, or held no nonce to answer.
    ParseError,
    /// A frame from the client broke the protocol.
    ProtocolViolation(ProtocolError),
    /// The client sent a Close frame.
    CloseFrame,
    /// The multiplexer refused the socket: it is taken to be gone.
    Unregistered,
    /// A frame was offered for writing while the queue was full: the client
    /// does not keep up.
    QueueOverflow,
}

/// The interest set that goes with a state: a connection reads while it awaits
/// the handshake, writes while the response is due, and once open reads, and
/// writes as long as it has output.
pub open spec fn interest_for(state: ConnectionState, has_output: bool) -> InterestSet {
    match state {
        ConnectionState::AwaitingHandshake => InterestSet { readable: true, writable: false },
        ConnectionState::HandshakeResponsePending => InterestSet {
            readable: false,
            writable: true,
        },
        ConnectionState::Open => InterestSet { readable: true, writable: has_output },
        ConnectionState::Closed => InterestSet { readable: false, writable: false },
    }
}

/// What reading a connection's socket gave.
#[derive(Debug)]
pub enum ReadInput {
    /// Nothing: the socket would block.
    WouldBlock,
    /// An error of the socket.
    Failed,
    /// Bytes of the upgrade request. They went through the tokenizer, and this
    /// is the verdict on the request so far.
    Handshake(FeedOutcome),
    /// Bytes that arrived on an open connection.
    Data(Vec<u8>),
}

/// What became of the bytes that a connection handed out for writing.
#[derive(Clone, Copy, Debug, PartialEq, Eq, Structural)]
pub enum WriteResult {
    /// The socket took this many of them, from the first on.
    Written(usize),
    /// The socket took none: it would block.
    WouldBlock,
    /// An error of the socket.
    Failed,
}

/// The state machine of one connection.
pub struct WebSocketClient {
    headers: HeaderMap,
    interest: InterestSet,
    state: ConnectionState,
    closed_by: Option<CloseReason>,
    outgoing: Vec<Frame>,
    input: Vec<u8>,
    pending: Vec<u8>,
    limits: Limits,
}

/// The mathematical value of a [`WebSocketClient`].
pub struct ClientView {
    /// The headers of the upgrade request, kept until the response is written.
    pub headers: Map<Seq<u8>, Seq<u8>>,
    pub interest: InterestSet,
    pub state: ConnectionState,
    /// Why the connection closed, once it has.
    pub closed_by: Option<CloseReason>,
    /// The frames queued for writing, the oldest first.
    pub outgoing: Seq<FrameView>,
    /// The bytes received that are not yet a whole frame.
    pub input: Seq<u8>,
    /// The bytes serialised and handed out for writing that the socket has
    /// not yet taken.
    pub pending: Seq<u8>,
    pub limits: Limits,
}

impl View for WebSocketClient {
    type V = ClientView;

    closed spec fn view(&self) -> ClientView {
        ClientView {
            headers: self.headers@,
            interest: self.interest,
            state: self.state,
            closed_by: self.closed_by,
            outgoing: frame_views(self.outgoing@),
            input: self.input@,
            pending: self.pending@,
            limits: self.limits,
        }
    }
}

/// The name of the header that carries the client's nonce, as bytes.
pub open spec fn key_name() -> Seq<u8> {
    SEC_WEBSOCKET_KEY.spec_bytes()
}

/// Whether a request's headers hold a nonce that can be answered.
pub open spec fn has_key(headers: Map<Seq<u8>, Seq<u8>>) -> bool {
    headers.contains_key(key_name()) && headers[key_name()].len() <= MAX_KEY_LEN
}

impl ClientView {
    /// Whether anything waits to be written.
    pub open spec fn has_output(self) -> bool {
        self.outgoing.len() > 0 || self.pending.len() > 0
    }

    /// The invariant of a connection: its interest set is the one that goes
    /// with its state, while the response is due the request's nonce is at
    /// hand, it has a reason to be closed exactly if it is closed, and its
    /// queue is within the limit.
    pub open spec fn wf(self) -> bool {
        &&& self.interest == interest_for(self.state, self.has_output())
        &&& self.state == ConnectionState::HandshakeResponsePending ==> has_key(self.headers)
        &&& self.state == ConnectionState::Closed <==> self.closed_by is Some
        &&& self.outgoing.len() <= self.limits.max_queued
    }

    /// A connection fresh from `accept`.
    pub open spec fn initial(limits: Limits) -> ClientView {
        ClientView {
            headers: Map::empty(),
            interest: InterestSet { readable: true, writable: false },
            state: ConnectionState::AwaitingHandshake,
            closed_by: None,
            outgoing: Seq::empty(),
            input: Seq::empty(),
            pending: Seq::empty(),
            limits,
        }
    }

    /// The connection after it was closed for `reason`: it waits for nothing
    /// any more. A connection that is closed already stays as it is, with the
    /// reason it has.
    pub open spec fn closed(self, reason: CloseReason) -> ClientView {
        if self.state == ConnectionState::Closed {
            self
        } else {
            ClientView {
                state: ConnectionState::Closed,
                interest: InterestSet { readable: false, writable: false },
                closed_by: Some(reason),
                ..self
            }
        }
    }

    /// The connection after the tokenizer's verdict on the upgrade request.
    /// A request that is ready for the upgrade is accepted if it holds a
    /// nonce: the response is then due. Without one, as on a malformed
    /// request, the connection closes.
    pub open spec fn fed(self, outcome: FeedOutcome) -> ClientView {
        if self.state != ConnectionState::AwaitingHandshake {
            self
        } else {
            match outcome {
                FeedOutcome::More => self,
                FeedOutcome::Error => self.closed(CloseReason::ParseError),
                FeedOutcome::UpgradeReady(headers) => if has_key(headers@) {
                    ClientView {
                        headers: headers@,
                        state: ConnectionState::HandshakeResponsePending,
                        interest: InterestSet { readable: false, writable: true },
                        ..self
                    }
                } else {
                    self.closed(CloseReason::ParseError)
                },
            }
        }
    }

    /// The frames that come out of an open connection when `data` arrives.
    pub open spec fn delivered(self, data: Seq<u8>) -> Seq<FrameView> {
        if self.state != ConnectionState::Open {
            Seq::empty()
        } else {
            decode_stream(self.input + data, self.limits.max_payload as nat).frames
        }
    }

    /// The connection after `data` arrived: the whole frames are taken from
    /// the buffer, and what is left waits for the rest of its frame. A Close
    /// frame or a frame that breaks the protocol closes the connection, which
    /// then keeps nothing of its input.
    pub open spec fn received(self, data: Seq<u8>) -> ClientView {
        if self.state != ConnectionState::Open {
            self
        } else {
            let decoded = decode_stream(self.input + data, self.limits.max_payload as nat);
            let dropped = ClientView { input: Seq::empty(), ..self };
            match decoded.end {
                StreamEnd::NeedMoreData => ClientView {
                    input: (self.input + data).skip(decoded.consumed as int),
                    ..self
                },
                StreamEnd::CloseFrame => dropped.closed(CloseReason::CloseFrame),
                StreamEnd::Violation(e) => dropped.closed(CloseReason::ProtocolViolation(e)),
            }
        }
    }

    /// The connection after what reading its socket gave. Input that does not
    /// go with the state is ignored.
    pub open spec fn after_read(self, input: ReadInput) -> ClientView {
        match input {
            ReadInput::WouldBlock => self,
            ReadInput::Failed => self.closed(CloseReason::IoError),
            ReadInput::Handshake(outcome) => self.fed(outcome),
            ReadInput::Data(data) => self.received(data@),
        }
    }

    /// The connection after a frame was offered for sending. Only an open
    /// connection takes it, and then waits to write. Where the queue is full
    /// the frame is dropped and the connection closes.
    pub open spec fn queued(self, frame: FrameView) -> ClientView {
        if self.state != ConnectionState::Open {
            self
        } else if self.outgoing.len() >= self.limits.max_queued {
            self.closed(CloseReason::QueueOverflow)
        } else {
            ClientView {
                outgoing: self.outgoing.push(frame),
                interest: InterestSet { readable: true, writable: true },
                ..self
            }
        }
    }

    /// The bytes that the connection hands out when its socket is writable:
    /// while the response is due, the response, or what is left of it after a
    /// partial write; once open, what is left of an earlier write and then
    /// every queued frame, the oldest first.
    pub open spec fn to_write(self) -> Seq<u8> {
        match self.state {
            ConnectionState::HandshakeResponsePending => if self.pending.len() == 0 {
                response_bytes(accept_value(self.headers[key_name()]))
            } else {
                self.pending
            },
            ConnectionState::Open => self.pending + wire_all(self.outgoing),
            _ => Seq::empty(),
        }
    }

    /// The connection after it handed out `to_write`: those bytes are pending
    /// and the queue is empty.
    pub open spec fn writing(self) -> ClientView {
        match self.state {
            ConnectionState::HandshakeResponsePending => ClientView {
                pending: self.to_write(),
                ..self
            },
            ConnectionState::Open => ClientView {
                pending: self.to_write(),
                outgoing: Seq::empty(),
                ..self
            },
            _ => self,
        }
    }

    /// The connection after the socket answered a write. The bytes taken
    /// leave the pending ones. When the last byte of the response is taken the
    /// connection opens and drops the request's headers; an open connection
    /// goes back to reading alone once nothing is left to write.
    pub open spec fn written(self, result: WriteResult) -> ClientView {
        match result {
            WriteResult::WouldBlock => self,
            WriteResult::Failed => self.closed(CloseReason::IoError),
            WriteResult::Written(n) => {
                let taken: int = if n <= self.pending.len() { n as int } else { self.pending.len() as int };
                let rest = self.pending.skip(taken);
                match self.state {
                    ConnectionState::HandshakeResponsePending => if self.pending.len() > 0
                        && rest.len() == 0 {
                        ClientView {
                            state: ConnectionState::Open,
                            headers: Map::empty(),
                            pending: rest,
                            interest: interest_for(
                                ConnectionState::Open,
                                self.outgoing.len() > 0,
                            ),
                            ..self
                        }
                    } else {
                        ClientView { pending: rest, ..self }
                    },
                    ConnectionState::Open => ClientView {
                        pending: rest,
                        interest: interest_for(
                            ConnectionState::Open,
                            self.outgoing.len() > 0 || rest.len() > 0,
                        ),
                        ..self
                    },
                    _ => self,
                }
            },
        }
    }
}

/// A connection that is well formed and not closed waits for at least one
/// readiness event.
pub proof fn lemma_interest_never_empty(client: ClientView)
    requires
        client.wf(),
        client.state != ConnectionState::Closed,
    ensures
        !client.interest.is_empty(),
{
}

/// Closing leaves a well-formed connection well formed.
pub proof fn lemma_closed_keeps_wf(client: ClientView, reason: CloseReason)
    requires
        client.wf(),
    ensures
        client.closed(reason).wf(),
{
}

/// A read leaves a well-formed connection well formed, whatever it gave.
pub proof fn lemma_read_keeps_wf(client: ClientView, input: ReadInput)
    requires
        client.wf(),
    ensures
        client.after_read(input).wf(),
{
}

/// A frame offered for sending leaves a well-formed connection well formed.
pub proof fn lemma_queued_keeps_wf(client: ClientView, frame: FrameView)
    requires
        client.wf(),
    ensures
        client.queued(frame).wf(),
{
}

/// A write, and the socket's answer to it, leave a well-formed connection
/// well formed.
pub proof fn lemma_write_keeps_wf(client: ClientView, result: WriteResult)
    requires
        client.wf(),
    ensures
        client.writing().wf(),
        client.written(result).wf(),
{
    lemma_wire_all_len(client.outgoing);
}

/// The handshake from the accepted request to the open connection: what is
/// handed out for writing is the response to the request's nonce, byte for
/// byte; the connection is not open while any of it is unwritten, and opens,
/// waiting to read, when the socket has taken it all.
pub proof fn lemma_full_write_opens(client: ClientView, taken: usize)
    requires
        client.wf(),
        client.state == ConnectionState::HandshakeResponsePending,
        client.pending.len() == 0,
        client.outgoing.len() == 0,
    ensures
        client.to_write() == response_bytes(accept_value(client.headers[key_name()])),
        client.writing().state == ConnectionState::HandshakeResponsePending,
        taken < client.to_write().len() ==> client.writing().written(
            WriteResult::Written(taken),
        ).state == ConnectionState::HandshakeResponsePending,
        taken >= client.to_write().len() ==> client.writing().written(
            WriteResult::Written(taken),
        ) == (ClientView {
            state: ConnectionState::Open,
            interest: InterestSet { readable: true, writable: false },
            headers: Map::empty(),
            ..client
        }),
{
    lemma_response_is_not_empty(accept_value(client.headers[key_name()]));
    let full = client.to_write();
    if taken >= full.len() {
        assert(full.skip(full.len() as int) =~= client.pending);
    }
}

/// A flush from the queue to the wire: an open connection hands out what was
/// pending and then every queued frame, the oldest first, and once the socket
/// has taken it all the connection has nothing queued, nothing pending, and
/// waits to read alone.
pub proof fn lemma_flush_returns_to_reading(client: ClientView, taken: usize)
    requires
        client.wf(),
        client.state == ConnectionState::Open,
        taken >= client.to_write().len(),
    ensures
        client.to_write() == client.pending + wire_all(client.outgoing),
        client.writing().written(WriteResult::Written(taken)) == (ClientView {
            outgoing: Seq::empty(),
            pending: Seq::empty(),
            interest: InterestSet { readable: true, writable: false },
            ..client
        }),
{
    let full = client.to_write();
    assert(full.skip(full.len() as int) =~= Seq::<u8>::empty());
}

/// An open connection that stands between two frames closes when a frame
/// without a masking key arrives, and delivers nothing of it: the mask bit is
/// the top bit of the second byte.
pub proof fn lemma_unmasked_frame_closes(client: ClientView, data: Seq<u8>)
    requires
        client.state == ConnectionState::Open,
        client.input.len() == 0,
        data.len() >= 2,
        data[1] < 128,
    ensures
        client.received(data).state == ConnectionState::Closed,
        client.received(data).closed_by matches Some(CloseReason::ProtocolViolation(_)),
        Opcode::of_wire_code((data[0] % 16) as u8) is Some ==> client.received(data).closed_by
            == Some(CloseReason::ProtocolViolation(ProtocolError::UnmaskedFrame)),
        client.received(data).interest.is_empty(),
        client.delivered(data).len() == 0,
{
    assert(client.input + data =~= data);
}

/// An open connection that stands between two frames takes a masked frame
/// that is within its maximum and delivers it with its payload in the clear.
/// It stays open and ready for the next frame, unless the frame is a Close
/// frame, which closes it.
pub proof fn lemma_masked_frame_is_delivered(client: ClientView, frame: FrameView)
    requires
        client.state == ConnectionState::Open,
        client.input.len() == 0,
        frame.wf(),
        frame.mask is Some,
        frame.payload.len() <= client.limits.max_payload,
        frame.payload.len() <= u64::MAX,
    ensures
        client.delivered(wire_bytes(frame)) == seq![frame],
        frame.opcode != Opcode::Close ==> client.received(wire_bytes(frame)) == client,
        frame.opcode == Opcode::Close ==> client.received(wire_bytes(frame)) == client.closed(
            CloseReason::CloseFrame,
        ),
{
    let buf = wire_bytes(frame);
    assert(client.input + buf =~= buf);
    let max = client.limits.max_payload as nat;
    lemma_decode_wire_bytes(frame, max, true);
    let rest = buf.skip(buf.len() as int);
    assert(rest.len() == 0);
    assert(decode_stream(rest, max).frames.len() == 0);
    assert(decode_stream(rest, max).consumed == 0);
    assert(decode_stream(buf, max).consumed == buf.len());
    assert(decode_stream(buf, max).frames =~= seq![frame]);
    assert(rest =~= client.input);
    assert(client.input =~= Seq::<u8>::empty());
}

/// What an open connection keeps of its input after a read is less than one
/// frame of the longest kind.
pub proof fn lemma_input_is_bounded(client: ClientView, data: Seq<u8>)
    requires
        client.state == ConnectionState::Open,
    ensures
        client.received(data).state == ConnectionState::Open ==> client.received(data).input.len()
            < client.limits.max_payload + 14,
{
    let buf = client.input + data;
    let max = client.limits.max_payload as nat;
    lemma_decode_stream_rest(buf, max);
    let decoded = decode_stream(buf, max);
    if decoded.end == StreamEnd::NeedMoreData {
        lemma_need_more_data_is_short(buf.skip(decoded.consumed as int), max, true);
    }
}

/// A connection takes its input in any pieces: two reads one after the other
/// deliver the frames, and leave the connection, that one read of both pieces
/// together does.
pub proof fn lemma_received_in_pieces(client: ClientView, first: Seq<u8>, second: Seq<u8>)
    requires
        client.state == ConnectionState::Open,
    ensures
        client.received(first).received(second) == client.received(first + second),
        client.delivered(first) + client.received(first).delivered(second) == client.delivered(
            first + second,
        ),
{
    let buf = client.input + first;
    let max = client.limits.max_payload as nat;
    lemma_decode_stream_extend(buf, second, max);
    lemma_decode_stream_rest(buf, max);
    assert(buf + second =~= client.input + (first + second));
    let one = decode_stream(buf, max);
    let kept = buf.skip(one.consumed as int);
    let two = decode_stream(kept + second, max);
    if one.end == StreamEnd::NeedMoreData {
        lemma_decode_stream_rest(kept + second, max);
        assert((kept + second).skip(two.consumed as int) =~= (buf + second).skip(
            (one.consumed + two.consumed) as int,
        ));
    } else {
        assert(client.delivered(first) + Seq::<FrameView>::empty() =~= client.delivered(first));
    }
}

impl WebSocketClient {
    /// The invariant of a connection. Every function here keeps it.
    pub open spec fn wf(&self) -> bool {
        self@.wf()
    }

    /// A connection for a socket that was just accepted. It awaits the
    /// handshake.
    pub fn new(limits: Limits) -> (client: WebSocketClient)
        ensures
            client@ == ClientView::initial(limits),
            client.wf(),
    {
        let client = WebSocketClient {
            headers: HeaderMap::new(),
            interest: InterestSet::readable(),
            state: ConnectionState::AwaitingHandshake,
            closed_by: None,
            outgoing: Vec::new(),
            input: Vec::new(),
            pending: Vec::new(),
            limits,
        };
        assert(frame_views(client.outgoing@) =~= Seq::<FrameView>::empty());
        client
    }

    /// The limits that the connection keeps to.
    pub fn limits(&self) -> (limits: Limits)
        ensures
            limits == self@.limits,
    {
        self.limits
    }

    /// Where the connection stands in the protocol.
    pub fn state(&self) -> (state: ConnectionState)
        ensures
            state == self@.state,
    {
        self.state
    }

    /// The readiness events to register the socket for.
    pub fn interest(&self) -> (interest: InterestSet)
        ensures
            interest == self@.interest,
    {
        self.interest
    }

    /// Whether the connection is closed and waits to be removed.
    pub fn is_closed(&self) -> (closed: bool)
        ensures
            closed == (self@.state == ConnectionState::Closed),
    {
        self.state == ConnectionState::Closed
    }

    /// The frames queued for writing, the oldest first.
    pub fn outgoing(&self) -> (queue: &Vec<Frame>)
        ensures
            frame_views(queue@) == self@.outgoing,
    {
        &self.outgoing
    }

    /// Why the connection closed, once it has.
    pub fn close_reason(&self) -> (reason: Option<CloseReason>)
        ensures
            reason == self@.closed_by,
    {
        self.closed_by
    }

    /// Closes the connection for `reason`, unless it is closed already.
    pub fn close(&mut self, reason: CloseReason)
        ensures
            old(self).wf() ==> final(self).wf(),
            final(self)@ == old(self)@.closed(reason),
    {
        if self.state != ConnectionState::Closed {
            self.state = ConnectionState::Closed;
            self.interest = InterestSet::none();
            self.closed_by = Some(reason);
        }
    }

    /// The socket was readable and was read: takes what the read gave, and
    /// returns the frames that came in, for the application to answer with
    /// [`WebSocketClient::enqueue`].
    pub fn read(&mut self, input: ReadInput) -> (frames: Vec<Frame>)
        requires
            old(self).wf(),
        ensures
            final(self).wf(),
            final(self)@ == old(self)@.after_read(input),
            frame_views(frames@) == match input {
                ReadInput::Data(data) => old(self)@.delivered(data@),
                _ => Seq::<FrameView>::empty(),
            },
    {
        proof {
            lemma_read_keeps_wf(self@, input);
        }
        match input {
            ReadInput::WouldBlock => Vec::new(),
            ReadInput::Failed => {
                self.close(CloseReason::IoError);
                Vec::new()
            },
            ReadInput::Handshake(outcome) => {
                self.read_handshake(outcome);
                Vec::new()
            },
            ReadInput::Data(data) => self.read_frame(data.as_slice()),
        }
    }

    /// Takes the tokenizer's verdict on the upgrade request.
    fn read_handshake(&mut self, outcome: FeedOutcome)
        ensures
            final(self)@ == old(self)@.fed(outcome),
    {
        if self.state != ConnectionState::AwaitingHandshake {
            return;
        }
        match outcome {
            FeedOutcome::More => {},
            FeedOutcome::Error => {
                self.close(CloseReason::ParseError);
            },
            FeedOutcome::UpgradeReady(headers) => {
                let answerable = match headers.get(SEC_WEBSOCKET_KEY.as_bytes()) {
                    Some(key) => key.len() as u64 <= MAX_KEY_LEN,
                    None => false,
                };
                if answerable {
                    self.headers = headers;
                    self.state = ConnectionState::HandshakeResponsePending;
                    self.interest = InterestSet::writable();
                } else {
                    self.close(CloseReason::ParseError);
                }
            },
        }
    }

    /// Takes bytes that arrived on an open connection and returns the frames
    /// that are now whole.
    fn read_frame(&mut self, data: &[u8]) -> (frames: Vec<Frame>)
        ensures
            final(self)@ == old(self)@.received(data@),
            frame_views(frames@) == old(self)@.delivered(data@),
    {
        if self.state != ConnectionState::Open {
            let frames: Vec<Frame> = Vec::new();
            assert(frame_views(frames@) =~= Seq::<FrameView>::empty());
            return frames;
        }
        let mut buf: Vec<u8> = Vec::new();
        core::mem::swap(&mut self.input, &mut buf);
        append_bytes(&mut buf, data);
        let (frames, consumed, end) = decode_frames(buf.as_slice(), self.limits.max_payload);
        match end {
            StreamEnd::NeedMoreData => {
                let rest = buf.split_off(consumed);
                assert(rest@ =~= (old(self)@.input + data@).skip(consumed as int));
                self.input = rest;
            },
            StreamEnd::CloseFrame => {
                self.close(CloseReason::CloseFrame);
            },
            StreamEnd::Violation(e) => {
                self.close(CloseReason::ProtocolViolation(e));
            },
        }
        frames
    }

    /// Queues a frame for writing. Only an open connection with room in its
    /// queue takes it; the result says whether it did. An open connection
    /// whose queue is full closes.
    pub fn enqueue(&mut self, frame: Frame) -> (taken: bool)
        requires
            old(self).wf(),
        ensures
            final(self).wf(),
            final(self)@ == old(self)@.queued(frame@),
            taken == (old(self)@.state == ConnectionState::Open && old(self)@.outgoing.len()
                < old(self)@.limits.max_queued),
    {
        if self.state != ConnectionState::Open {
            return false;
        }
        if self.outgoing.len() >= self.limits.max_queued {
            self.close(CloseReason::QueueOverflow);
            return false;
        }
        proof {
            lemma_frame_views_push(self.outgoing@, frame);
        }
        self.outgoing.push(frame);
        self.interest = InterestSet { readable: true, writable: true };
        true
    }

    /// The socket is writable: returns the bytes to offer to it. What the
    /// socket made of them is reported with [`WebSocketClient::written`].
    pub fn write(&mut self) -> (bytes: Vec<u8>)
        requires
            old(self).wf(),
        ensures
            final(self).wf(),
            final(self)@ == old(self)@.writing(),
            bytes@ == old(self)@.to_write(),
    {
        proof {
            lemma_write_keeps_wf(self@, WriteResult::WouldBlock);
        }
        match self.state {
            ConnectionState::HandshakeResponsePending => {
                self.write_handshake();
                vstd::slice::slice_to_vec(self.pending.as_slice())
            },
            ConnectionState::Open => {
                self.write_frames();
                vstd::slice::slice_to_vec(self.pending.as_slice())
            },
            _ => Vec::new(),
        }
    }

    /// Makes the response to the upgrade request the pending bytes, unless a
    /// part of it is pending already.
    fn write_handshake(&mut self)
        requires
            old(self).wf(),
            old(self)@.state == ConnectionState::HandshakeResponsePending,
        ensures
            final(self)@ == old(self)@.writing(),
    {
        if self.pending.len() == 0 {
            match self.headers.get(SEC_WEBSOCKET_KEY.as_bytes()) {
                Some(key) => {
                    let accept = gen_key(key.as_slice());
                    self.pending = handshake_response(accept.as_slice());
                },
                None => {},
            }
        }
    }

    /// Serialises every queued frame, the oldest first, behind the pending
    /// bytes, and empties the queue.
    fn write_frames(&mut self)
        requires
            old(self)@.state == ConnectionState::Open,
        ensures
            final(self)@ == old(self)@.writing(),
    {
        let mut queue: Vec<Frame> = Vec::new();
        core::mem::swap(&mut self.outgoing, &mut queue);
        let mut out: Vec<u8> = Vec::new();
        core::mem::swap(&mut self.pending, &mut out);
        let n = queue.len();
        let mut i: usize = 0;
        assert(frame_views(queue@.take(0)) =~= Seq::<FrameView>::empty());
        while i < n
            invariant
                i <= n,
                n == queue@.len(),
                out@ == old(self).pending@ + wire_all(frame_views(queue@.take(i as int))),
            decreases n - i,
        {
            let bytes = encode(&queue[i]);
            append_bytes(&mut out, bytes.as_slice());
            proof {
                let next = frame_views(queue@.take(i + 1));
                assert(next.drop_last() =~= frame_views(queue@.take(i as int)));
                assert(next.last() == queue@[i as int]@);
            }
            i = i + 1;
        }
        assert(queue@.take(n as int) =~= queue@);
        assert(frame_views(self.outgoing@) =~= Seq::<FrameView>::empty());
        self.pending = out;
    }

    /// Takes the socket's answer to the bytes that [`WebSocketClient::write`]
    /// handed out.
    pub fn written(&mut self, result: WriteResult)
        requires
            old(self).wf(),
        ensures
            final(self).wf(),
            final(self)@ == old(self)@.written(result),
    {
        proof {
            lemma_write_keeps_wf(self@, result);
        }
        match result {
            WriteResult::WouldBlock => {},
            WriteResult::Failed => {
                self.close(CloseReason::IoError);
            },
            WriteResult::Written(n) => {
                match self.state {
                    ConnectionState::HandshakeResponsePending => {
                        let had = self.pending.len();
                        let taken = if n <= had { n } else { had };
                        let rest = self.pending.split_off(taken);
                        assert(rest@ =~= old(self)@.pending.skip(taken as int));
                        let opens = had > 0 && rest.len() == 0;
                        self.pending = rest;
                        if opens {
                            self.state = ConnectionState::Open;
                            self.headers = HeaderMap::new();
                            self.interest = InterestSet {
                                readable: true,
                                writable: self.outgoing.len() > 0,
                            };
                        }
                    },
                    ConnectionState::Open => {
                        let had = self.pending.len();
                        let taken = if n <= had { n } else { had };
                        let rest = self.pending.split_off(taken);
                        assert(rest@ =~= old(self)@.pending.skip(taken as int));
                        self.interest = InterestSet {
                            readable: true,
                            writable: self.outgoing.len() > 0 || rest.len() > 0,
                        };
                        self.pending = rest;
                    },
                    _ => {},
                }
            },
        }
    }
}

} // verus!
