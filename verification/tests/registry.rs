use echo_reactor::codec::encode;
use echo_reactor::connection::{CloseReason, Next, ReadOutcome, Wanted, WriteOutcome};
use echo_reactor::registry::{Registry, Route, LISTENER};

fn bytes(data: &[u8]) -> ReadOutcome {
    ReadOutcome::Bytes(data.to_vec())
}

#[test]
fn listener_has_identifier_zero() {
    assert_eq!(LISTENER, 0);
}

#[test]
fn new_registry_is_empty() {
    let registry = Registry::new();
    assert_eq!(registry.len(), 0);
    assert_eq!(registry.route(LISTENER), Route::Accept);
    assert_eq!(registry.route(1), Route::Ignore);
    assert_eq!(registry.wanted(1), Wanted::Nothing);
    assert_eq!(registry.unsent(1), None);
}

#[test]
fn identifiers_grow_from_one() {
    let mut registry = Registry::new();
    assert_eq!(registry.open(), Some(1));
    assert_eq!(registry.open(), Some(2));
    assert_eq!(registry.open(), Some(3));
    assert_eq!(registry.len(), 3);
    for id in 1..=3 {
        assert_eq!(registry.route(id), Route::Drive);
        assert_eq!(registry.wanted(id), Wanted::Read);
        assert_eq!(registry.unsent(id), Some(&[][..]));
    }
    assert_eq!(registry.route(4), Route::Ignore);
}

#[test]
fn identifiers_are_not_reused_after_removal() {
    let mut registry = Registry::new();
    assert_eq!(registry.open(), Some(1));
    assert_eq!(registry.open(), Some(2));
    assert_eq!(registry.read_done(2, bytes(&[])), Next::Close(CloseReason::PeerShutdown));
    assert_eq!(registry.read_done(1, bytes(&[])), Next::Close(CloseReason::PeerShutdown));
    assert_eq!(registry.len(), 0);
    assert_eq!(registry.open(), Some(3));
    assert_eq!(registry.route(1), Route::Ignore);
    assert_eq!(registry.route(2), Route::Ignore);
    assert_eq!(registry.route(3), Route::Drive);
}

#[test]
fn outcome_for_unknown_identifier_is_ignored() {
    let mut registry = Registry::new();
    registry.open();
    assert_eq!(registry.read_done(7, bytes(&encode(b"abc"))), Next::Wait);
    assert_eq!(registry.read_done(LISTENER, ReadOutcome::Failed), Next::Wait);
    assert_eq!(registry.write_done(7, WriteOutcome::Wrote(3)), Next::Wait);
    assert_eq!(registry.len(), 1);
    assert_eq!(registry.wanted(1), Wanted::Read);
}

#[test]
fn request_is_echoed_through_the_registry() {
    let mut registry = Registry::new();
    let id = registry.open().unwrap();
    assert_eq!(registry.read_done(id, bytes(&encode(b"hello1"))), Next::Again);
    assert_eq!(registry.wanted(id), Wanted::Write);
    assert_eq!(registry.unsent(id), Some(&encode(b"hello1")[..]));
    assert_eq!(registry.write_done(id, WriteOutcome::Wrote(4)), Next::Again);
    assert_eq!(registry.unsent(id), Some(&b"hello1"[..]));
    assert_eq!(registry.write_done(id, WriteOutcome::WouldBlock), Next::Wait);
    assert_eq!(registry.write_done(id, WriteOutcome::Wrote(6)), Next::Again);
    assert_eq!(registry.wanted(id), Wanted::Read);
    assert_eq!(registry.read_done(id, ReadOutcome::WouldBlock), Next::Wait);
    assert_eq!(registry.len(), 1);
}

#[test]
fn shutdown_removes_only_the_sender() {
    let mut registry = Registry::new();
    let a = registry.open().unwrap();
    let b = registry.open().unwrap();
    let c = registry.open().unwrap();
    registry.read_done(a, bytes(&encode(b"pending")));
    registry.read_done(c, bytes(&[4, 0, 0, 0, b'x']));
    assert_eq!(registry.read_done(b, bytes(&[])), Next::Close(CloseReason::PeerShutdown));
    assert_eq!(registry.len(), 2);
    assert_eq!(registry.route(b), Route::Ignore);
    assert_eq!(registry.wanted(b), Wanted::Nothing);
    assert_eq!(registry.unsent(b), None);
    assert_eq!(registry.wanted(a), Wanted::Write);
    assert_eq!(registry.unsent(a), Some(&encode(b"pending")[..]));
    assert_eq!(registry.wanted(c), Wanted::Read);
    assert_eq!(registry.read_done(c, bytes(b"yzw")), Next::Again);
    assert_eq!(registry.unsent(c), Some(&encode(b"xyzw")[..]));
}

#[test]
fn every_way_of_closing_removes_the_entry() {
    let mut registry = Registry::new();
    let a = registry.open().unwrap();
    let b = registry.open().unwrap();
    let c = registry.open().unwrap();
    let d = registry.open().unwrap();
    let e = registry.open().unwrap();
    let f = registry.open().unwrap();
    assert_eq!(registry.read_done(a, ReadOutcome::Failed), Next::Close(CloseReason::ReadFailed));
    assert_eq!(
        registry.read_done(b, bytes(&[0xff, 0xff, 0xff, 0xff])),
        Next::Close(CloseReason::ProtocolViolation)
    );
    registry.read_done(c, bytes(&[1]));
    assert_eq!(
        registry.read_done(c, bytes(&[])),
        Next::Close(CloseReason::UnexpectedShutdown)
    );
    registry.read_done(d, bytes(&encode(b"d")));
    assert_eq!(
        registry.write_done(d, WriteOutcome::Failed),
        Next::Close(CloseReason::WriteFailed)
    );
    registry.read_done(e, bytes(&encode(b"e")));
    assert_eq!(
        registry.write_done(e, WriteOutcome::Wrote(0)),
        Next::Close(CloseReason::PeerShutdown)
    );
    assert_eq!(registry.len(), 1);
    for id in [a, b, c, d, e] {
        assert_eq!(registry.route(id), Route::Ignore);
    }
    assert_eq!(registry.route(f), Route::Drive);
    assert_eq!(registry.wanted(f), Wanted::Read);
}

#[test]
fn connections_are_served_independently() {
    let mut registry = Registry::new();
    let a = registry.open().unwrap();
    let b = registry.open().unwrap();
    registry.read_done(a, bytes(&encode(b"from a")[..5]));
    registry.read_done(b, bytes(&encode(b"from b")));
    registry.read_done(a, bytes(&encode(b"from a")[5..]));
    assert_eq!(registry.unsent(a), Some(&encode(b"from a")[..]));
    assert_eq!(registry.unsent(b), Some(&encode(b"from b")[..]));
    registry.write_done(b, WriteOutcome::Wrote(10));
    assert_eq!(registry.wanted(b), Wanted::Read);
    assert_eq!(registry.wanted(a), Wanted::Write);
}
