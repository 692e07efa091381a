use echo_reactor::codec::{encode, MAX_PAYLOAD};
use echo_reactor::connection::{
    CloseReason, Connection, Next, ReadOutcome, State, Wanted, WriteOutcome,
};

fn bytes(data: &[u8]) -> ReadOutcome {
    ReadOutcome::Bytes(data.to_vec())
}

/// Sends everything the connection has queued, `step` bytes at a time, and
/// returns what went out.
fn flush(conn: &mut Connection, step: usize) -> Vec<u8> {
    let mut sent = Vec::new();
    while conn.wanted() == Wanted::Write {
        let offered = conn.unsent();
        let n = step.min(offered.len());
        sent.extend_from_slice(&offered[..n]);
        assert_eq!(conn.on_write(WriteOutcome::Wrote(n)), Next::Again);
    }
    sent
}

#[test]
fn new_connection_awaits_a_request() {
    let conn = Connection::new();
    assert_eq!(conn.state(), State::AwaitingRequest);
    assert_eq!(conn.wanted(), Wanted::Read);
    assert_eq!(conn.buffered(), 0);
    assert!(conn.unsent().is_empty());
}

#[test]
fn request_is_echoed() {
    let mut conn = Connection::new();
    assert_eq!(conn.on_read(bytes(&encode(b"hello1"))), Next::Again);
    assert_eq!(conn.state(), State::SendingResponse);
    assert_eq!(conn.wanted(), Wanted::Write);
    assert_eq!(conn.unsent(), &[6, 0, 0, 0, b'h', b'e', b'l', b'l', b'o', b'1'][..]);
    assert_eq!(conn.buffered(), 0);
}

#[test]
fn empty_payload_is_echoed() {
    let mut conn = Connection::new();
    assert_eq!(conn.on_read(bytes(&[0, 0, 0, 0])), Next::Again);
    assert_eq!(conn.state(), State::SendingResponse);
    assert_eq!(conn.unsent(), &[0, 0, 0, 0][..]);
}

#[test]
fn full_size_payload_is_echoed() {
    let payload = vec![0xabu8; MAX_PAYLOAD];
    let frame = encode(&payload);
    let mut conn = Connection::new();
    assert_eq!(conn.on_read(bytes(&frame)), Next::Again);
    assert_eq!(conn.unsent(), &frame[..]);
}

#[test]
fn would_block_on_read_changes_nothing() {
    let mut conn = Connection::new();
    assert_eq!(conn.on_read(ReadOutcome::WouldBlock), Next::Wait);
    assert_eq!(conn.state(), State::AwaitingRequest);
    assert_eq!(conn.on_read(bytes(&[6, 0])), Next::Again);
    assert_eq!(conn.on_read(ReadOutcome::WouldBlock), Next::Wait);
    assert_eq!(conn.state(), State::AwaitingRequest);
    assert_eq!(conn.buffered(), 2);
}

#[test]
fn partial_frame_is_kept_until_complete() {
    let mut conn = Connection::new();
    assert_eq!(conn.on_read(bytes(&[3, 0, 0])), Next::Again);
    assert_eq!(conn.state(), State::AwaitingRequest);
    assert_eq!(conn.buffered(), 3);
    assert_eq!(conn.on_read(bytes(&[0, b'a', b'b'])), Next::Again);
    assert_eq!(conn.state(), State::AwaitingRequest);
    assert_eq!(conn.buffered(), 6);
    assert!(conn.unsent().is_empty());
    assert_eq!(conn.on_read(bytes(&[b'c'])), Next::Again);
    assert_eq!(conn.state(), State::SendingResponse);
    assert_eq!(conn.buffered(), 0);
    assert_eq!(conn.unsent(), &[3, 0, 0, 0, b'a', b'b', b'c'][..]);
}

#[test]
fn pipelined_requests_are_answered_in_order() {
    let mut stream = encode(b"first");
    stream.extend_from_slice(&encode(b"second"));
    let mut conn = Connection::new();
    assert_eq!(conn.on_read(bytes(&stream)), Next::Again);
    assert_eq!(conn.state(), State::SendingResponse);
    assert_eq!(conn.unsent(), &stream[..]);
    assert_eq!(flush(&mut conn, 1024), stream);
    assert_eq!(conn.state(), State::AwaitingRequest);
}

#[test]
fn pipelined_requests_with_a_partial_third() {
    let mut stream = encode(b"one");
    stream.extend_from_slice(&encode(b"two"));
    let whole = stream.len();
    stream.extend_from_slice(&[9, 0, 0, 0, b'x']);
    let mut conn = Connection::new();
    assert_eq!(conn.on_read(bytes(&stream)), Next::Again);
    assert_eq!(conn.state(), State::SendingResponse);
    assert_eq!(conn.unsent(), &stream[..whole]);
    assert_eq!(conn.buffered(), 5);
    assert_eq!(flush(&mut conn, 3), stream[..whole].to_vec());
    assert_eq!(conn.state(), State::AwaitingRequest);
    assert_eq!(conn.buffered(), 5);
    assert_eq!(conn.on_read(bytes(b"12345678")), Next::Again);
    assert_eq!(conn.state(), State::SendingResponse);
    assert_eq!(conn.unsent(), &encode(b"x12345678")[..]);
}

#[test]
fn delivery_in_pieces_gives_the_same_responses() {
    let mut stream = Vec::new();
    for payload in [&b"hello1"[..], b"", b"hello2", &[0u8; 300], b"z"] {
        stream.extend_from_slice(&encode(payload));
    }
    stream.extend_from_slice(&[2, 0, 0, 0, b'q']);

    let mut whole = Connection::new();
    assert_eq!(whole.on_read(bytes(&stream)), Next::Again);
    let expected = flush(&mut whole, usize::MAX);
    assert_eq!(expected, stream[..stream.len() - 5].to_vec());

    for piece in [1usize, 2, 3, 5, 7, 64, 311] {
        let mut conn = Connection::new();
        let mut sent = Vec::new();
        for chunk in stream.chunks(piece) {
            assert_eq!(conn.on_read(bytes(chunk)), Next::Again);
            sent.extend_from_slice(&flush(&mut conn, 4));
        }
        assert_eq!(sent, expected, "pieces of {piece}");
        assert_eq!(conn.state(), State::AwaitingRequest);
        assert_eq!(conn.buffered(), whole.buffered());
        assert_eq!(conn.buffered(), 5);
    }
}

#[test]
fn shutdown_between_frames_is_graceful() {
    let mut conn = Connection::new();
    assert_eq!(conn.on_read(bytes(&[])), Next::Close(CloseReason::PeerShutdown));
    assert_eq!(conn.state(), State::Closed(CloseReason::PeerShutdown));
    assert_eq!(conn.wanted(), Wanted::Nothing);
}

#[test]
fn shutdown_after_a_served_request_is_graceful() {
    let mut conn = Connection::new();
    assert_eq!(conn.on_read(bytes(&encode(b"bye"))), Next::Again);
    assert_eq!(flush(&mut conn, 100), encode(b"bye"));
    assert_eq!(conn.on_read(bytes(&[])), Next::Close(CloseReason::PeerShutdown));
    assert_eq!(conn.state(), State::Closed(CloseReason::PeerShutdown));
}

#[test]
fn shutdown_inside_a_frame_is_unexpected() {
    let mut conn = Connection::new();
    assert_eq!(conn.on_read(bytes(&[5, 0, 0, 0, b'a'])), Next::Again);
    assert_eq!(conn.on_read(bytes(&[])), Next::Close(CloseReason::UnexpectedShutdown));
    assert_eq!(conn.state(), State::Closed(CloseReason::UnexpectedShutdown));
    assert_eq!(conn.wanted(), Wanted::Nothing);
}

#[test]
fn read_error_closes() {
    let mut conn = Connection::new();
    assert_eq!(conn.on_read(ReadOutcome::Failed), Next::Close(CloseReason::ReadFailed));
    assert_eq!(conn.state(), State::Closed(CloseReason::ReadFailed));
}

#[test]
fn oversized_announcement_closes() {
    let mut conn = Connection::new();
    assert_eq!(
        conn.on_read(bytes(&[0x01, 0x10, 0, 0])),
        Next::Close(CloseReason::ProtocolViolation)
    );
    assert_eq!(conn.state(), State::Closed(CloseReason::ProtocolViolation));
    assert_eq!(conn.wanted(), Wanted::Nothing);
}

#[test]
fn oversized_announcement_after_a_good_frame_closes() {
    let mut stream = encode(b"ok");
    stream.extend_from_slice(&[0xff, 0xff, 0xff, 0xff, 1, 2, 3]);
    let mut conn = Connection::new();
    assert_eq!(conn.on_read(bytes(&stream)), Next::Close(CloseReason::ProtocolViolation));
    assert_eq!(conn.state(), State::Closed(CloseReason::ProtocolViolation));
    assert_eq!(conn.wanted(), Wanted::Nothing);
}

#[test]
fn oversized_announcement_split_over_reads_closes() {
    let mut conn = Connection::new();
    assert_eq!(conn.on_read(bytes(&[0x01, 0x10])), Next::Again);
    assert_eq!(conn.state(), State::AwaitingRequest);
    assert_eq!(conn.on_read(bytes(&[0, 0])), Next::Close(CloseReason::ProtocolViolation));
}

#[test]
fn partial_writes_advance_the_cursor() {
    let mut conn = Connection::new();
    conn.on_read(bytes(&encode(b"abcdef")));
    assert_eq!(conn.unsent().len(), 10);
    assert_eq!(conn.on_write(WriteOutcome::Wrote(3)), Next::Again);
    assert_eq!(conn.state(), State::SendingResponse);
    assert_eq!(conn.unsent(), &[0, b'a', b'b', b'c', b'd', b'e', b'f'][..]);
    assert_eq!(conn.on_write(WriteOutcome::WouldBlock), Next::Wait);
    assert_eq!(conn.state(), State::SendingResponse);
    assert_eq!(conn.unsent().len(), 7);
    assert_eq!(conn.on_write(WriteOutcome::Wrote(6)), Next::Again);
    assert_eq!(conn.state(), State::SendingResponse);
    assert_eq!(conn.unsent(), &[b'f'][..]);
    assert_eq!(conn.on_write(WriteOutcome::Wrote(1)), Next::Again);
    assert_eq!(conn.state(), State::AwaitingRequest);
    assert_eq!(conn.wanted(), Wanted::Read);
    assert!(conn.unsent().is_empty());
}

#[test]
fn complete_write_returns_to_awaiting() {
    let mut conn = Connection::new();
    conn.on_read(bytes(&encode(b"abc")));
    assert_eq!(conn.on_write(WriteOutcome::Wrote(7)), Next::Again);
    assert_eq!(conn.state(), State::AwaitingRequest);
    assert!(conn.unsent().is_empty());
    // The buffers are reused for the next request.
    conn.on_read(bytes(&encode(b"de")));
    assert_eq!(conn.unsent(), &[2, 0, 0, 0, b'd', b'e'][..]);
}

#[test]
fn write_of_nothing_is_peer_shutdown() {
    let mut conn = Connection::new();
    conn.on_read(bytes(&encode(b"abc")));
    assert_eq!(conn.on_write(WriteOutcome::Wrote(0)), Next::Close(CloseReason::PeerShutdown));
    assert_eq!(conn.state(), State::Closed(CloseReason::PeerShutdown));
}

#[test]
fn write_error_closes() {
    let mut conn = Connection::new();
    conn.on_read(bytes(&encode(b"abc")));
    assert_eq!(conn.on_write(WriteOutcome::Failed), Next::Close(CloseReason::WriteFailed));
    assert_eq!(conn.state(), State::Closed(CloseReason::WriteFailed));
}

#[test]
fn write_of_more_than_offered_closes() {
    let mut conn = Connection::new();
    conn.on_read(bytes(&encode(b"abc")));
    assert_eq!(conn.on_write(WriteOutcome::Wrote(8)), Next::Close(CloseReason::WriteFailed));
    assert_eq!(conn.state(), State::Closed(CloseReason::WriteFailed));
    let mut conn = Connection::new();
    conn.on_read(bytes(&encode(b"abc")));
    conn.on_write(WriteOutcome::Wrote(5));
    assert_eq!(
        conn.on_write(WriteOutcome::Wrote(usize::MAX)),
        Next::Close(CloseReason::WriteFailed)
    );
}

#[test]
fn outcome_that_was_not_asked_for_is_ignored() {
    let mut conn = Connection::new();
    assert_eq!(conn.on_write(WriteOutcome::Wrote(3)), Next::Again);
    assert_eq!(conn.on_write(WriteOutcome::Failed), Next::Again);
    assert_eq!(conn.on_write(WriteOutcome::WouldBlock), Next::Again);
    assert_eq!(conn.state(), State::AwaitingRequest);
    conn.on_read(bytes(&encode(b"abc")));
    assert_eq!(conn.on_read(bytes(&encode(b"zzz"))), Next::Again);
    assert_eq!(conn.on_read(bytes(&[])), Next::Again);
    assert_eq!(conn.on_read(ReadOutcome::Failed), Next::Again);
    assert_eq!(conn.on_read(ReadOutcome::WouldBlock), Next::Again);
    assert_eq!(conn.state(), State::SendingResponse);
    assert_eq!(conn.unsent(), &encode(b"abc")[..]);
    assert_eq!(conn.buffered(), 0);
}

#[test]
fn closed_connection_stays_closed() {
    let mut conn = Connection::new();
    conn.on_read(ReadOutcome::Failed);
    let closed = Next::Close(CloseReason::ReadFailed);
    assert_eq!(conn.on_read(bytes(&encode(b"abc"))), closed);
    assert_eq!(conn.on_read(ReadOutcome::WouldBlock), closed);
    assert_eq!(conn.on_write(WriteOutcome::Wrote(1)), closed);
    assert_eq!(conn.on_write(WriteOutcome::WouldBlock), closed);
    assert_eq!(conn.state(), State::Closed(CloseReason::ReadFailed));
    assert_eq!(conn.wanted(), Wanted::Nothing);
}

#[test]
fn three_requests_on_one_connection() {
    let mut conn = Connection::new();
    for payload in [&b"hello1"[..], b"hello2", b"hello3"] {
        assert_eq!(conn.on_read(bytes(&encode(payload))), Next::Again);
        let response = flush(&mut conn, 4);
        assert_eq!(&response[..4], &[6, 0, 0, 0]);
        assert_eq!(&response[4..], payload);
        assert_eq!(conn.state(), State::AwaitingRequest);
        assert_eq!(conn.on_read(ReadOutcome::WouldBlock), Next::Wait);
    }
}

#[test]
fn read_buffer_stays_below_one_full_frame() {
    let mut conn = Connection::new();
    let frame = encode(&vec![1u8; MAX_PAYLOAD]);
    conn.on_read(bytes(&frame[..frame.len() - 1]));
    assert_eq!(conn.state(), State::AwaitingRequest);
    assert_eq!(conn.buffered(), 4 + MAX_PAYLOAD - 1);
    conn.on_read(bytes(&frame[frame.len() - 1..]));
    assert_eq!(conn.state(), State::SendingResponse);
    assert_eq!(conn.buffered(), 0);
}
