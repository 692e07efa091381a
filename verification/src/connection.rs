//! One connection's buffered state machine.
//!
//! The connection owns no socket. It says which operation it is waiting
//! for, the caller attempts that operation without blocking, and the
//! outcome is handed back to decide what happens next.

use vstd::prelude::*;
use vstd::slice::slice_subrange;
use crate::codec::{decode_one, encode, encoded, parse_one, Decoded, Parsed, MAX_PAYLOAD};
use crate::codec::{lemma_decode_encoded, lemma_frame_is_encoded};
use crate::stream::{delivered, drain, joined, responses};
use crate::stream::{
    lemma_chunking_is_invisible, lemma_drained_rest_incomplete, lemma_echo_one,
    lemma_pipelined_pair, lemma_responses_concat, lemma_responses_nonempty,
};

verus! {

/// Why a connection was closed.
#[derive(Clone, Copy, Debug, PartialEq, Eq, Structural)]
pub enum CloseReason {
    /// The peer shut the stream down between frames, or stopped taking bytes.
    PeerShutdown,
    /// The peer shut the stream down in the middle of a frame.
    UnexpectedShutdown,
    /// Reading failed with something other than "would block".
    ReadFailed,
    /// Writing failed with something other than "would block".
    WriteFailed,
    /// The peer announced a payload larger than the protocol allows.
    ProtocolViolation,
}

/// Where a connection stands in its request/response cycle.
#[derive(Clone, Copy, Debug, PartialEq, Eq, Structural)]
pub enum State {
    /// Waiting for the bytes of the next request.
    AwaitingRequest,
    /// Responses are queued and not yet fully sent.
    SendingResponse,
    /// Finished for good; the connection is to be discarded.
    Closed(CloseReason),
}

/// The operation a connection is waiting for.
#[derive(Clone, Copy, Debug, PartialEq, Eq, Structural)]
pub enum Wanted {
    /// A non-blocking read.
    Read,
    /// A non-blocking write of the unsent bytes.
    Write,
    /// Nothing: the connection is closed.
    Nothing,
}

/// What the caller does after handing an outcome back.
#[derive(Clone, Copy, Debug, PartialEq, Eq, Structural)]
pub enum Next {
    /// Progress was made: ask what is wanted and attempt it.
    Again,
    /// The operation would block: return to the readiness wait.
    Wait,
    /// The connection is closed: release it.
    Close(CloseReason),
}

/// Outcome of one non-blocking read attempt.
#[derive(Debug, PartialEq, Eq)]
pub enum ReadOutcome {
    /// The bytes that were read; none at all means the peer shut down.
    Bytes(Vec<u8>),
    /// Nothing to read right now.
    WouldBlock,
    /// Any other error.
    Failed,
}

/// A read outcome as a mathematical value.
pub enum Arrival {
    Bytes(Seq<u8>),
    WouldBlock,
    Failed,
}

impl View for ReadOutcome {
    type V = Arrival;

    open spec fn view(&self) -> Arrival {
        match self {
            ReadOutcome::Bytes(bytes) => Arrival::Bytes(bytes@),
            ReadOutcome::WouldBlock => Arrival::WouldBlock,
            ReadOutcome::Failed => Arrival::Failed,
        }
    }
}

/// Outcome of one non-blocking write attempt.
#[derive(Clone, Copy, Debug, PartialEq, Eq, Structural)]
pub enum WriteOutcome {
    /// The number of bytes the transport took; zero means the peer is gone.
    Wrote(usize),
    /// No room to write right now.
    WouldBlock,
    /// Any other error.
    Failed,
}

/// A connection as a mathematical value.
pub struct ConnectionView {
    pub state: State,
    /// Bytes received and not yet decoded.
    pub read_buffer: Seq<u8>,
    /// Response bytes queued for sending, oldest first.
    pub write_buffer: Seq<u8>,
    /// How many bytes of `write_buffer` have been sent.
    pub write_cursor: nat,
}

impl ConnectionView {
    /// A connection as it is right after accept.
    pub open spec fn fresh() -> ConnectionView {
        ConnectionView {
            state: State::AwaitingRequest,
            read_buffer: Seq::empty(),
            write_buffer: Seq::empty(),
            write_cursor: 0,
        }
    }

    /// State, write buffer and cursor agree: the cursor is inside the
    /// buffer, nothing is queued while a request is awaited, and something
    /// is still unsent while responses are being sent.
    pub open spec fn coherent(self) -> bool {
        &&& self.write_cursor <= self.write_buffer.len()
        &&& self.state == State::AwaitingRequest ==> self.write_buffer.len() == 0
        &&& self.state == State::SendingResponse ==> self.write_cursor < self.write_buffer.len()
    }

    /// The invariant of a connection between two operations: it is
    /// coherent, and unless it is closed no whole frame is left undecoded.
    pub open spec fn wf(self) -> bool {
        &&& self.coherent()
        &&& !(self.state is Closed) ==> parse_one(self.read_buffer) == Parsed::Incomplete
    }

    /// The queued bytes that have not been sent yet.
    pub open spec fn unsent(self) -> Seq<u8> {
        self.write_buffer.skip(self.write_cursor as int)
    }

    /// The operation this connection is waiting for.
    pub open spec fn wanted(self) -> Wanted {
        match self.state {
            State::AwaitingRequest => Wanted::Read,
            State::SendingResponse => Wanted::Write,
            State::Closed(_) => Wanted::Nothing,
        }
    }

    /// Whether a whole frame is ready to be taken off the read buffer.
    pub open spec fn has_request(self) -> bool {
        !(self.state is Closed) && parse_one(self.read_buffer) is Frame
    }

    /// The connection after one attempt to take a request off the read
    /// buffer: a whole frame moves, as its echo, to the end of the write
    /// buffer; a violation closes the connection; otherwise nothing changes.
    pub open spec fn after_request(self) -> ConnectionView {
        if self.state is Closed {
            self
        } else {
            match parse_one(self.read_buffer) {
                Parsed::Incomplete => self,
                Parsed::Violation => ConnectionView {
                    state: State::Closed(CloseReason::ProtocolViolation),
                    ..self
                },
                Parsed::Frame { payload, consumed } => ConnectionView {
                    state: State::SendingResponse,
                    read_buffer: self.read_buffer.skip(consumed as int),
                    write_buffer: self.write_buffer + encoded(payload),
                    write_cursor: self.write_cursor,
                },
            }
        }
    }

    /// The connection after a read outcome. Only a connection that awaits a
    /// request looks at it: arriving bytes join the read buffer, every whole
    /// frame is answered in order, and the state follows from what was
    /// found.
    pub open spec fn after_read(self, arrival: Arrival) -> ConnectionView {
        if self.state != State::AwaitingRequest {
            self
        } else {
            match arrival {
                Arrival::WouldBlock => self,
                Arrival::Failed => ConnectionView {
                    state: State::Closed(CloseReason::ReadFailed),
                    ..self
                },
                Arrival::Bytes(bytes) => if bytes.len() == 0 {
                    ConnectionView {
                        state: State::Closed(
                            if self.read_buffer.len() == 0 {
                                CloseReason::PeerShutdown
                            } else {
                                CloseReason::UnexpectedShutdown
                            },
                        ),
                        ..self
                    }
                } else {
                    let found = drain(self.read_buffer + bytes);
                    ConnectionView {
                        state: if found.violated {
                            State::Closed(CloseReason::ProtocolViolation)
                        } else if found.frames.len() > 0 {
                            State::SendingResponse
                        } else {
                            State::AwaitingRequest
                        },
                        read_buffer: found.rest,
                        write_buffer: self.write_buffer + responses(found.frames),
                        write_cursor: self.write_cursor,
                    }
                },
            }
        }
    }

    /// The connection after a write outcome. Only a connection that is
    /// sending looks at it: the cursor moves past the bytes taken, and once
    /// everything is sent the write buffer is emptied and the next request
    /// is awaited.
    pub open spec fn after_write(self, outcome: WriteOutcome) -> ConnectionView {
        if self.state != State::SendingResponse {
            self
        } else {
            match outcome {
                WriteOutcome::WouldBlock => self,
                WriteOutcome::Failed => ConnectionView {
                    state: State::Closed(CloseReason::WriteFailed),
                    ..self
                },
                WriteOutcome::Wrote(n) => if n == 0 {
                    ConnectionView { state: State::Closed(CloseReason::PeerShutdown), ..self }
                } else if n > self.write_buffer.len() - self.write_cursor {
                    ConnectionView { state: State::Closed(CloseReason::WriteFailed), ..self }
                } else if self.write_cursor + n == self.write_buffer.len() {
                    ConnectionView {
                        state: State::AwaitingRequest,
                        read_buffer: self.read_buffer,
                        write_buffer: Seq::empty(),
                        write_cursor: 0,
                    }
                } else {
                    ConnectionView { write_cursor: self.write_cursor + n as nat, ..self }
                },
            }
        }
    }

    /// What the caller is told after an outcome moved the connection from
    /// `self` to `after`: to release a closed connection, to wait if the
    /// operation it asked for would block, and otherwise to go on.
    pub open spec fn verdict(self, blocked: bool, after: ConnectionView) -> Next {
        match after.state {
            State::Closed(reason) => Next::Close(reason),
            _ => if blocked {
                Next::Wait
            } else {
                Next::Again
            },
        }
    }

    /// The verdict on a read outcome.
    pub open spec fn read_verdict(self, arrival: Arrival) -> Next {
        self.verdict(
            self.state == State::AwaitingRequest && arrival is WouldBlock,
            self.after_read(arrival),
        )
    }

    /// The verdict on a write outcome.
    pub open spec fn write_verdict(self, outcome: WriteOutcome) -> Next {
        self.verdict(
            self.state == State::SendingResponse && outcome is WouldBlock,
            self.after_write(outcome),
        )
    }

    /// The connection once everything it has queued has been sent.
    pub open spec fn flushed(self) -> ConnectionView {
        if self.state == State::SendingResponse {
            ConnectionView {
                state: State::AwaitingRequest,
                read_buffer: self.read_buffer,
                write_buffer: Seq::empty(),
                write_cursor: 0,
            }
        } else {
            self
        }
    }

    /// The bytes that go out while the connection sends everything it has
    /// queued; a connection that is not sending sends nothing.
    pub open spec fn sent_by_flush(self) -> Seq<u8> {
        if self.state == State::SendingResponse {
            self.unsent()
        } else {
            Seq::empty()
        }
    }

    /// The connection after a session in which the peer's bytes arrive in
    /// `chunks`, one read per chunk, and after each read the responses
    /// queued are sent in full.
    pub open spec fn after_session(self, chunks: Seq<Seq<u8>>) -> ConnectionView
        decreases chunks.len(),
    {
        if chunks.len() == 0 {
            self
        } else {
            self.after_session(chunks.drop_last()).after_read(
                Arrival::Bytes(chunks.last()),
            ).flushed()
        }
    }

    /// All the bytes sent to the peer during such a session, in order.
    pub open spec fn session_output(self, chunks: Seq<Seq<u8>>) -> Seq<u8>
        decreases chunks.len(),
    {
        if chunks.len() == 0 {
            Seq::empty()
        } else {
            self.session_output(chunks.drop_last()) + self.after_session(
                chunks.drop_last(),
            ).after_read(Arrival::Bytes(chunks.last())).sent_by_flush()
        }
    }

    /// The connection after a run of writes that took `counts[0]`,
    /// `counts[1]`, ... bytes, in that order.
    pub open spec fn after_writes(self, counts: Seq<usize>) -> ConnectionView
        decreases counts.len(),
    {
        if counts.len() == 0 {
            self
        } else {
            self.after_writes(counts.drop_last()).after_write(WriteOutcome::Wrote(counts.last()))
        }
    }
}

/// One connection: its state, the bytes received and not yet decoded, and
/// the responses queued with a cursor over what has been sent.
#[derive(Debug)]
pub struct Connection {
    state: State,
    read_buffer: Vec<u8>,
    write_buffer: Vec<u8>,
    write_cursor: usize,
}

impl View for Connection {
    type V = ConnectionView;

    closed spec fn view(&self) -> ConnectionView {
        ConnectionView {
            state: self.state,
            read_buffer: self.read_buffer@,
            write_buffer: self.write_buffer@,
            write_cursor: self.write_cursor as nat,
        }
    }
}

impl Connection {
    /// A connection as it is right after accept: awaiting its first
    /// request, with nothing buffered.
    pub fn new() -> (conn: Connection)
        ensures
            conn@ == ConnectionView::fresh(),
            conn@.wf(),
    {
        Connection {
            state: State::AwaitingRequest,
            read_buffer: Vec::new(),
            write_buffer: Vec::new(),
            write_cursor: 0,
        }
    }

    /// Takes one request off the front of the read buffer, if a whole one
    /// is there, and queues its echo behind the responses already queued.
    /// Returns whether a request was taken.
    fn try_one_request(&mut self) -> (taken: bool)
        requires
            old(self)@.coherent(),
        ensures
            final(self)@ == old(self)@.after_request(),
            taken == old(self)@.has_request(),
            final(self)@.coherent(),
    {
        if let State::Closed(_) = self.state {
            return false;
        }
        match decode_one(self.read_buffer.as_slice()) {
            Decoded::Incomplete => false,
            Decoded::Violation => {
                self.state = State::Closed(CloseReason::ProtocolViolation);
                false
            },
            Decoded::Frame { payload, consumed } => {
                proof {
                    lemma_frame_is_encoded(self.read_buffer@);
                }
                let mut response = encode(payload.as_slice());
                self.write_buffer.append(&mut response);
                let rest = self.read_buffer.split_off(consumed);
                self.read_buffer = rest;
                self.state = State::SendingResponse;
                true
            },
        }
    }

    /// Takes in the outcome of the read that this connection asked for.
    ///
    /// Bytes that arrived are appended to the read buffer and every whole
    /// frame now in it is answered, in order, behind whatever is already
    /// queued. No bytes at all means the peer shut down. A connection that
    /// did not ask for a read ignores the outcome.
    pub fn on_read(&mut self, outcome: ReadOutcome) -> (next: Next)
        requires
            old(self)@.wf(),
        ensures
            final(self)@ == old(self)@.after_read(outcome@),
            next == old(self)@.read_verdict(outcome@),
            final(self)@.wf(),
    {
        match self.state {
            State::Closed(reason) => {
                return Next::Close(reason);
            },
            State::SendingResponse => {
                return Next::Again;
            },
            State::AwaitingRequest => {},
        }
        match outcome {
            ReadOutcome::WouldBlock => Next::Wait,
            ReadOutcome::Failed => {
                self.state = State::Closed(CloseReason::ReadFailed);
                Next::Close(CloseReason::ReadFailed)
            },
            ReadOutcome::Bytes(mut bytes) => {
                if bytes.len() == 0 {
                    let reason = if self.read_buffer.len() == 0 {
                        CloseReason::PeerShutdown
                    } else {
                        CloseReason::UnexpectedShutdown
                    };
                    self.state = State::Closed(reason);
                    return Next::Close(reason);
                }
                self.read_buffer.append(&mut bytes);
                self.answer_requests()
            },
        }
    }

    /// Answers every whole frame in the read buffer, oldest first, and
    /// settles the state on what was found.
    fn answer_requests(&mut self) -> (next: Next)
        requires
            old(self)@.coherent(),
            old(self)@.state == State::AwaitingRequest,
        ensures
            final(self)@ == (ConnectionView {
                state: if drain(old(self)@.read_buffer).violated {
                    State::Closed(CloseReason::ProtocolViolation)
                } else if drain(old(self)@.read_buffer).frames.len() > 0 {
                    State::SendingResponse
                } else {
                    State::AwaitingRequest
                },
                read_buffer: drain(old(self)@.read_buffer).rest,
                write_buffer: old(self)@.write_buffer + responses(
                    drain(old(self)@.read_buffer).frames,
                ),
                write_cursor: old(self)@.write_cursor,
            }),
            next == old(self)@.verdict(false, final(self)@),
            final(self)@.wf(),
    {
        let ghost before = self@;
        let ghost found = drain(before.read_buffer);
        let ghost mut done: Seq<Seq<u8>> = Seq::empty();
        proof {
            assert(done + found.frames =~= found.frames);
            assert(before.write_buffer + responses(done) =~= before.write_buffer);
        }
        loop
            invariant_except_break
                self@.coherent(),
                !(self@.state is Closed),
                self@.state == (if done.len() > 0 {
                    State::SendingResponse
                } else {
                    State::AwaitingRequest
                }),
            invariant
                found == drain(before.read_buffer),
                self@.write_cursor == before.write_cursor,
                self@.write_buffer == before.write_buffer + responses(done),
                found.frames == done + drain(self@.read_buffer).frames,
                found.rest == drain(self@.read_buffer).rest,
                found.violated == drain(self@.read_buffer).violated,
            ensures
                self@.coherent(),
                parse_one(self@.read_buffer) != Parsed::Incomplete ==> parse_one(
                    self@.read_buffer,
                ) == Parsed::Violation,
                parse_one(self@.read_buffer) == Parsed::Violation <==> self@.state is Closed,
                self@.state is Closed ==> self@.state == State::Closed(
                    CloseReason::ProtocolViolation,
                ),
                !(self@.state is Closed) ==> self@.state == (if done.len() > 0 {
                    State::SendingResponse
                } else {
                    State::AwaitingRequest
                }),
            decreases self@.read_buffer.len(),
        {
            let ghost prev = self@;
            let taken = self.try_one_request();
            if !taken {
                break;
            }
            proof {
                lemma_frame_is_encoded(prev.read_buffer);
                let payload = parse_one(prev.read_buffer)->payload;
                let later = drain(self@.read_buffer);
                assert(done.push(payload).drop_last() =~= done);
                assert(done + (seq![payload] + later.frames) =~= done.push(payload)
                    + later.frames);
                assert((before.write_buffer + responses(done)) + encoded(payload)
                    =~= before.write_buffer + responses(done.push(payload)));
                done = done.push(payload);
            }
        }
        proof {
            assert(found.frames =~= done);
        }
        match self.state {
            State::Closed(reason) => Next::Close(reason),
            _ => Next::Again,
        }
    }

    /// Takes in the outcome of the write that this connection asked for.
    ///
    /// The cursor moves past the bytes the transport took. When nothing is
    /// left unsent the write buffer is emptied and the connection awaits
    /// the next request. A transport that took nothing, or claims to have
    /// taken more than it was offered, closes the connection. A connection
    /// that did not ask for a write ignores the outcome.
    pub fn on_write(&mut self, outcome: WriteOutcome) -> (next: Next)
        requires
            old(self)@.wf(),
        ensures
            final(self)@ == old(self)@.after_write(outcome),
            next == old(self)@.write_verdict(outcome),
            final(self)@.wf(),
    {
        match self.state {
            State::Closed(reason) => {
                return Next::Close(reason);
            },
            State::AwaitingRequest => {
                return Next::Again;
            },
            State::SendingResponse => {},
        }
        match outcome {
            WriteOutcome::WouldBlock => Next::Wait,
            WriteOutcome::Failed => {
                self.state = State::Closed(CloseReason::WriteFailed);
                Next::Close(CloseReason::WriteFailed)
            },
            WriteOutcome::Wrote(n) => {
                let remaining: usize = self.write_buffer.len() - self.write_cursor;
                if n == 0 {
                    self.state = State::Closed(CloseReason::PeerShutdown);
                    Next::Close(CloseReason::PeerShutdown)
                } else if n > remaining {
                    self.state = State::Closed(CloseReason::WriteFailed);
                    Next::Close(CloseReason::WriteFailed)
                } else if n == remaining {
                    self.write_buffer.clear();
                    self.write_cursor = 0;
                    self.state = State::AwaitingRequest;
                    Next::Again
                } else {
                    self.write_cursor = self.write_cursor + n;
                    Next::Again
                }
            },
        }
    }

    /// Where the connection stands.
    pub fn state(&self) -> (state: State)
        ensures
            state == self@.state,
    {
        self.state
    }

    /// The operation the connection is waiting for.
    pub fn wanted(&self) -> (wanted: Wanted)
        ensures
            wanted == self@.wanted(),
    {
        match self.state {
            State::AwaitingRequest => Wanted::Read,
            State::SendingResponse => Wanted::Write,
            State::Closed(_) => Wanted::Nothing,
        }
    }

    /// The queued response bytes that have not been sent yet: what the next
    /// write is to offer to the transport.
    pub fn unsent(&self) -> (bytes: &[u8])
        requires
            self@.wf(),
        ensures
            bytes@ == self@.unsent(),
    {
        slice_subrange(self.write_buffer.as_slice(), self.write_cursor, self.write_buffer.len())
    }

    /// Number of received bytes that do not yet make up a whole frame.
    pub fn buffered(&self) -> (n: usize)
        ensures
            n == self@.read_buffer.len(),
    {
        self.read_buffer.len()
    }
}

/// Bounded buffering: a well-formed connection that is not closed holds
/// less than one full-size frame of undecoded bytes.
pub proof fn lemma_read_buffer_bounded(conn: ConnectionView)
    requires
        conn.wf(),
        !(conn.state is Closed),
    ensures
        conn.read_buffer.len() < 4 + MAX_PAYLOAD,
{
}

/// A read outcome keeps a connection well-formed.
pub proof fn lemma_after_read_wf(conn: ConnectionView, arrival: Arrival)
    requires
        conn.wf(),
    ensures
        conn.after_read(arrival).wf(),
{
    if conn.state == State::AwaitingRequest {
        if let Arrival::Bytes(bytes) = arrival {
            lemma_drained_rest_incomplete(conn.read_buffer + bytes);
            let found = drain(conn.read_buffer + bytes);
            if found.frames.len() > 0 {
                lemma_responses_nonempty(found.frames);
            } else {
                assert(responses(found.frames) =~= Seq::<u8>::empty());
            }
        }
    }
}

/// A write outcome keeps a connection well-formed.
pub proof fn lemma_after_write_wf(conn: ConnectionView, outcome: WriteOutcome)
    requires
        conn.wf(),
    ensures
        conn.after_write(outcome).wf(),
{
}

/// Sending in one write everything that is queued brings the connection
/// back to awaiting a request with an empty write buffer.
pub proof fn lemma_full_write_flushes(conn: ConnectionView, n: usize)
    requires
        conn.wf(),
        conn.state == State::SendingResponse,
        n == conn.unsent().len(),
    ensures
        conn.after_write(WriteOutcome::Wrote(n)) == conn.flushed(),
        conn.write_verdict(WriteOutcome::Wrote(n)) == Next::Again,
{
}

/// The sum of `counts`.
pub open spec fn total(counts: Seq<usize>) -> nat
    decreases counts.len(),
{
    if counts.len() == 0 {
        0
    } else {
        total(counts.drop_last()) + counts.last() as nat
    }
}

/// Partial writes: however the transport cuts the queued bytes into
/// non-empty writes, each write leaves unsent exactly what the writes so
/// far have not taken, and the write that takes the last byte brings the
/// connection back to awaiting a request with an empty write buffer.
pub proof fn lemma_partial_writes(conn: ConnectionView, counts: Seq<usize>)
    requires
        conn.wf(),
        conn.state == State::SendingResponse,
        forall|i: int| 0 <= i < counts.len() ==> #[trigger] counts[i] > 0,
        total(counts) <= conn.unsent().len(),
    ensures
        total(counts) < conn.unsent().len() ==> conn.after_writes(counts) == (ConnectionView {
            write_cursor: conn.write_cursor + total(counts),
            ..conn
        }),
        total(counts) < conn.unsent().len() ==> conn.after_writes(counts).unsent()
            == conn.unsent().skip(total(counts) as int),
        total(counts) == conn.unsent().len() ==> conn.after_writes(counts) == conn.flushed(),
    decreases counts.len(),
{
    if counts.len() > 0 {
        let earlier = counts.drop_last();
        assert(counts.last() > 0);
        lemma_partial_writes(conn, earlier);
    }
    if total(counts) < conn.unsent().len() {
        assert(conn.after_writes(counts).unsent() =~= conn.unsent().skip(total(counts) as int));
    }
}

/// Echo: when the frame for `payload` reaches a connection that awaits a
/// request with nothing buffered, the connection turns to sending, and what
/// it has to send is one frame whose payload is exactly `payload`.
pub proof fn lemma_echo(conn: ConnectionView, payload: Seq<u8>)
    requires
        conn.wf(),
        conn.state == State::AwaitingRequest,
        conn.read_buffer.len() == 0,
        payload.len() <= MAX_PAYLOAD,
    ensures
        conn.after_read(Arrival::Bytes(encoded(payload))).state == State::SendingResponse,
        conn.after_read(Arrival::Bytes(encoded(payload))).read_buffer == Seq::<u8>::empty(),
        conn.after_read(Arrival::Bytes(encoded(payload))).unsent() == encoded(payload),
        parse_one(conn.after_read(Arrival::Bytes(encoded(payload))).unsent()) == (Parsed::Frame {
            payload,
            consumed: 4 + payload.len(),
        }),
        conn.read_verdict(Arrival::Bytes(encoded(payload))) == Next::Again,
{
    let frame = encoded(payload);
    lemma_echo_one(payload);
    lemma_decode_encoded(payload);
    assert(conn.read_buffer + frame =~= frame);
    let after = conn.after_read(Arrival::Bytes(frame));
    assert(after.write_buffer =~= frame);
    assert(after.unsent() =~= frame);
}

/// Pipelining: when the frames for `first` and `second` reach such a
/// connection together, what it has to send is the frame for `first`
/// followed by the frame for `second`.
pub proof fn lemma_pipelining(conn: ConnectionView, first: Seq<u8>, second: Seq<u8>)
    requires
        conn.wf(),
        conn.state == State::AwaitingRequest,
        conn.read_buffer.len() == 0,
        first.len() <= MAX_PAYLOAD,
        second.len() <= MAX_PAYLOAD,
    ensures
        conn.after_read(Arrival::Bytes(encoded(first) + encoded(second))).state
            == State::SendingResponse,
        conn.after_read(Arrival::Bytes(encoded(first) + encoded(second))).read_buffer
            == Seq::<u8>::empty(),
        conn.after_read(Arrival::Bytes(encoded(first) + encoded(second))).unsent() == encoded(
            first,
        ) + encoded(second),
{
    let both = encoded(first) + encoded(second);
    lemma_pipelined_pair(first, second);
    assert(conn.read_buffer + both =~= both);
    let after = conn.after_read(Arrival::Bytes(both));
    assert(after.write_buffer =~= both);
    assert(after.unsent() =~= both);
}

/// A session on a connection decodes as a chunked delivery does: as long
/// as no violation is met and no chunk is empty, the connection ends up
/// awaiting a request with the delivery's leftover in its read buffer, and
/// it has sent the responses for the delivery's frames.
pub proof fn lemma_session_is_delivery(chunks: Seq<Seq<u8>>)
    requires
        forall|i: int| 0 <= i < chunks.len() ==> (#[trigger] chunks[i]).len() > 0,
        !delivered(chunks).violated,
    ensures
        ConnectionView::fresh().after_session(chunks) == (ConnectionView {
            state: State::AwaitingRequest,
            read_buffer: delivered(chunks).rest,
            write_buffer: Seq::empty(),
            write_cursor: 0,
        }),
        ConnectionView::fresh().session_output(chunks) == responses(delivered(chunks).frames),
    decreases chunks.len(),
{
    let start = ConnectionView::fresh();
    if chunks.len() == 0 {
        assert(responses(delivered(chunks).frames) =~= Seq::<u8>::empty());
    } else {
        let earlier = chunks.drop_last();
        lemma_session_is_delivery(earlier);
        let before = start.after_session(earlier);
        let found = drain(delivered(earlier).rest + chunks.last());
        let read = before.after_read(Arrival::Bytes(chunks.last()));
        assert(read.write_buffer =~= responses(found.frames));
        assert(read.unsent() =~= responses(found.frames));
        if found.frames.len() > 0 {
            lemma_responses_nonempty(found.frames);
        } else {
            assert(responses(found.frames) =~= Seq::<u8>::empty());
        }
        lemma_responses_concat(delivered(earlier).frames, found.frames);
    }
}

/// Partial I/O resilience: on a fresh connection, a violation-free stream
/// that arrives in any number of non-empty chunks draws the same responses,
/// and leaves the same bytes buffered, as the whole stream arriving in one
/// read.
pub proof fn lemma_partial_delivery(chunks: Seq<Seq<u8>>)
    requires
        forall|i: int| 0 <= i < chunks.len() ==> (#[trigger] chunks[i]).len() > 0,
        !drain(joined(chunks)).violated,
    ensures
        ConnectionView::fresh().session_output(chunks) == responses(
            drain(joined(chunks)).frames,
        ),
        ConnectionView::fresh().after_session(chunks).state == State::AwaitingRequest,
        ConnectionView::fresh().after_session(chunks).read_buffer == drain(joined(chunks)).rest,
        chunks.len() > 0 ==> ConnectionView::fresh().session_output(chunks)
            == ConnectionView::fresh().session_output(seq![joined(chunks)]),
        chunks.len() > 0 ==> ConnectionView::fresh().after_session(chunks)
            == ConnectionView::fresh().after_session(seq![joined(chunks)]),
{
    lemma_chunking_is_invisible(chunks);
    lemma_session_is_delivery(chunks);
    if chunks.len() > 0 {
        let whole = seq![joined(chunks)];
        assert(whole.drop_last() =~= Seq::<Seq<u8>>::empty());
        assert(joined(Seq::<Seq<u8>>::empty()) =~= Seq::<u8>::empty());
        assert(joined(whole) =~= joined(chunks));
        assert(joined(chunks).len() > 0) by {
            assert(chunks.last().len() > 0);
        }
        lemma_chunking_is_invisible(whole);
        lemma_session_is_delivery(whole);
    }
}

} // verus!
