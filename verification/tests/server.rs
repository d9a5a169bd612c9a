use websocket_server::client::{
    CloseReason, ConnectionState, InterestSet, Limits, ReadInput, WriteResult,
};
use websocket_server::frame::{apply_mask, encode, Frame, Opcode, ProtocolError};
use websocket_server::handshake::{FeedOutcome, HeaderMap};
use websocket_server::server::{Action, Event, Rearm, WebSocketServer, SERVER_TOKEN};

const LIMITS: Limits = Limits { max_payload: 4096, max_queued: 4 };
const RESPONSE: &str = "HTTP/1.1 101 Switching Protocols\r\nConnection: Upgrade\r\nSec-WebSocket-Accept: s3pPLMBiTxaQ9kYGzzhZRbK+xOo=\r\nUpgrade: websocket\r\n\r\n";

const READABLE: InterestSet = InterestSet { readable: true, writable: false };
const WRITABLE: InterestSet = InterestSet { readable: false, writable: true };
const BOTH: InterestSet = InterestSet { readable: true, writable: true };

fn headers_with_key() -> HeaderMap {
    let mut headers = HeaderMap::new();
    headers.insert(b"Sec-WebSocket-Key".to_vec(), b"dGhlIHNhbXBsZSBub25jZQ==".to_vec());
    headers
}

fn masked_text(payload: &[u8]) -> Vec<u8> {
    let key = [0xAA, 0xBB, 0xCC, 0xDD];
    let mut bytes = vec![0x81, 0x80 | payload.len() as u8];
    bytes.extend_from_slice(&key);
    let mut body = payload.to_vec();
    apply_mask(&mut body, key);
    bytes.extend_from_slice(&body);
    bytes
}

fn masked_close() -> Vec<u8> {
    vec![0x88, 0x80, 1, 2, 3, 4]
}

fn accept(server: &mut WebSocketServer) -> usize {
    match server.ready(Event::Accepted) {
        Action::Register(token, interest) => {
            assert_eq!(interest, READABLE);
            token
        }
        other => panic!("unexpected action {:?}", other),
    }
}

fn open(server: &mut WebSocketServer) -> usize {
    let token = accept(server);
    let action = server.ready(Event::Read(
        token,
        ReadInput::Handshake(FeedOutcome::UpgradeReady(headers_with_key())),
    ));
    assert_eq!(action, Action::Rearm(token, Rearm::Reregister(WRITABLE)));
    let action = server.ready(Event::Writable(token));
    assert_eq!(action, Action::Write(token, RESPONSE.as_bytes().to_vec()));
    let action = server.ready(Event::Written(token, WriteResult::Written(RESPONSE.len())));
    assert_eq!(action, Action::Rearm(token, Rearm::Reregister(READABLE)));
    token
}

#[test]
fn new_registry_is_empty() {
    let server = WebSocketServer::new(LIMITS);
    assert_eq!(server.len(), 0);
    assert!(server.client(SERVER_TOKEN).is_none());
    assert!(server.client(1).is_none());
}

#[test]
fn server_token_is_zero() {
    assert_eq!(SERVER_TOKEN, 0);
}

#[test]
fn tokens_are_issued_in_rising_order_from_one() {
    let mut server = WebSocketServer::new(LIMITS);
    assert_eq!(accept(&mut server), 1);
    assert_eq!(accept(&mut server), 2);
    assert_eq!(accept(&mut server), 3);
    assert_eq!(server.len(), 3);
    assert!(server.client(SERVER_TOKEN).is_none());
}

#[test]
fn tokens_are_not_reused_after_removal() {
    let mut server = WebSocketServer::new(LIMITS);
    let first = accept(&mut server);
    let action = server.ready(Event::Read(first, ReadInput::Failed));
    assert_eq!(action, Action::Rearm(first, Rearm::Remove(CloseReason::IoError)));
    assert_eq!(server.len(), 0);
    let second = accept(&mut server);
    assert_ne!(second, first);
    assert_eq!(second, 2);
}

#[test]
fn accepted_connection_awaits_the_handshake() {
    let mut server = WebSocketServer::new(LIMITS);
    let token = accept(&mut server);
    let client = server.client(token).unwrap();
    assert_eq!(client.state(), ConnectionState::AwaitingHandshake);
    assert_eq!(client.interest(), READABLE);
}

#[test]
fn events_for_unknown_tokens_are_ignored() {
    let mut server = WebSocketServer::new(LIMITS);
    let token = accept(&mut server);
    assert_eq!(server.ready(Event::Read(99, ReadInput::Failed)), Action::Ignore);
    assert_eq!(server.ready(Event::Read(SERVER_TOKEN, ReadInput::WouldBlock)), Action::Ignore);
    assert_eq!(server.ready(Event::Writable(99)), Action::Ignore);
    assert_eq!(server.ready(Event::Written(99, WriteResult::Failed)), Action::Ignore);
    assert_eq!(server.ready(Event::Send(99, Frame::text("x"))), Action::Ignore);
    assert_eq!(server.ready(Event::RegistrationFailed(99)), Action::Ignore);
    assert_eq!(server.len(), 1);
    assert_eq!(server.client(token).unwrap().state(), ConnectionState::AwaitingHandshake);
}

#[test]
fn handshake_through_the_registry() {
    let mut server = WebSocketServer::new(LIMITS);
    let token = accept(&mut server);
    let action = server.ready(Event::Read(token, ReadInput::Handshake(FeedOutcome::More)));
    assert_eq!(action, Action::Rearm(token, Rearm::Reregister(READABLE)));
    let action = server.ready(Event::Read(
        token,
        ReadInput::Handshake(FeedOutcome::UpgradeReady(headers_with_key())),
    ));
    assert_eq!(action, Action::Rearm(token, Rearm::Reregister(WRITABLE)));
    let action = server.ready(Event::Writable(token));
    assert_eq!(action, Action::Write(token, RESPONSE.as_bytes().to_vec()));
    assert_eq!(
        server.client(token).unwrap().state(),
        ConnectionState::HandshakeResponsePending
    );
    let action = server.ready(Event::Written(token, WriteResult::Written(RESPONSE.len())));
    assert_eq!(action, Action::Rearm(token, Rearm::Reregister(READABLE)));
    assert_eq!(server.client(token).unwrap().state(), ConnectionState::Open);
}

#[test]
fn handshake_error_removes_the_connection() {
    let mut server = WebSocketServer::new(LIMITS);
    let token = accept(&mut server);
    let action = server.ready(Event::Read(token, ReadInput::Handshake(FeedOutcome::Error)));
    assert_eq!(action, Action::Rearm(token, Rearm::Remove(CloseReason::ParseError)));
    assert!(server.client(token).is_none());
    assert_eq!(server.len(), 0);
    // No further event reaches it.
    assert_eq!(server.ready(Event::Writable(token)), Action::Ignore);
}

#[test]
fn ping_text_frame_results_in_one_queued_reply_and_no_leak() {
    let mut server = WebSocketServer::new(LIMITS);
    let a = open(&mut server);
    let b = open(&mut server);

    let action = server.ready(Event::Read(a, ReadInput::Data(masked_text(b"ping"))));
    let frames = match action {
        Action::Deliver(token, frames, rearm) => {
            assert_eq!(token, a);
            assert_eq!(rearm, Rearm::Reregister(READABLE));
            frames
        }
        other => panic!("unexpected action {:?}", other),
    };
    assert_eq!(frames.len(), 1);
    assert_eq!(frames[0].opcode, Opcode::Text);
    assert_eq!(frames[0].payload, b"ping".to_vec());

    // The application answers each frame with one frame.
    for _frame in frames.iter() {
        let action = server.ready(Event::Send(a, Frame::text("Hi there!")));
        assert_eq!(action, Action::Rearm(a, Rearm::Reregister(BOTH)));
    }
    assert_eq!(server.client(a).unwrap().outgoing().len(), 1);
    assert_eq!(server.client(a).unwrap().outgoing()[0], Frame::text("Hi there!"));

    // The other connection saw nothing of it.
    let other = server.client(b).unwrap();
    assert!(other.outgoing().is_empty());
    assert_eq!(other.state(), ConnectionState::Open);
    assert_eq!(other.interest(), READABLE);

    // The reply goes out on the next writable event, and only on its own connection.
    let action = server.ready(Event::Writable(a));
    assert_eq!(action, Action::Write(a, encode(&Frame::text("Hi there!"))));
    let written = encode(&Frame::text("Hi there!")).len();
    let action = server.ready(Event::Written(a, WriteResult::Written(written)));
    assert_eq!(action, Action::Rearm(a, Rearm::Reregister(READABLE)));
    assert_eq!(server.ready(Event::Writable(b)), Action::Rearm(b, Rearm::Reregister(READABLE)));
}

#[test]
fn read_without_whole_frames_rearms() {
    let mut server = WebSocketServer::new(LIMITS);
    let token = open(&mut server);
    let data = masked_text(b"ping");
    let action = server.ready(Event::Read(token, ReadInput::Data(data[..3].to_vec())));
    assert_eq!(action, Action::Rearm(token, Rearm::Reregister(READABLE)));
    let action = server.ready(Event::Read(token, ReadInput::Data(data[3..].to_vec())));
    match action {
        Action::Deliver(t, frames, rearm) => {
            assert_eq!(t, token);
            assert_eq!(frames.len(), 1);
            assert_eq!(frames[0].payload, b"ping".to_vec());
            assert_eq!(rearm, Rearm::Reregister(READABLE));
        }
        other => panic!("unexpected action {:?}", other),
    }
}

#[test]
fn unmasked_frame_removes_the_connection() {
    let mut server = WebSocketServer::new(LIMITS);
    let keep = open(&mut server);
    let token = open(&mut server);
    let action = server.ready(Event::Read(token, ReadInput::Data(encode(&Frame::text("ping")))));
    assert_eq!(
        action,
        Action::Rearm(
            token,
            Rearm::Remove(CloseReason::ProtocolViolation(ProtocolError::UnmaskedFrame))
        )
    );
    assert!(server.client(token).is_none());
    assert_eq!(server.len(), 1);
    assert_eq!(server.client(keep).unwrap().state(), ConnectionState::Open);
}

#[test]
fn close_frame_is_delivered_and_the_connection_removed() {
    let mut server = WebSocketServer::new(LIMITS);
    let token = open(&mut server);
    let action = server.ready(Event::Read(token, ReadInput::Data(masked_close())));
    match action {
        Action::Deliver(t, frames, rearm) => {
            assert_eq!(t, token);
            assert_eq!(frames.len(), 1);
            assert_eq!(frames[0].opcode, Opcode::Close);
            assert_eq!(rearm, Rearm::Remove(CloseReason::CloseFrame));
        }
        other => panic!("unexpected action {:?}", other),
    }
    assert!(server.client(token).is_none());
    // A reply to a connection that is gone is dropped.
    assert_eq!(server.ready(Event::Send(token, Frame::text("late"))), Action::Ignore);
}

#[test]
fn send_before_the_connection_is_open_is_dropped() {
    let mut server = WebSocketServer::new(LIMITS);
    let token = accept(&mut server);
    let action = server.ready(Event::Send(token, Frame::text("early")));
    assert_eq!(action, Action::Rearm(token, Rearm::Reregister(READABLE)));
    assert!(server.client(token).unwrap().outgoing().is_empty());
}

#[test]
fn connections_get_the_limits_of_the_registry() {
    let mut server = WebSocketServer::new(LIMITS);
    let token = accept(&mut server);
    assert_eq!(server.client(token).unwrap().limits(), LIMITS);
}

#[test]
fn queue_overflow_removes_the_connection() {
    let mut server = WebSocketServer::new(LIMITS);
    let keep = open(&mut server);
    let token = open(&mut server);
    for _ in 0..4 {
        let action = server.ready(Event::Send(token, Frame::text("x")));
        assert_eq!(action, Action::Rearm(token, Rearm::Reregister(BOTH)));
    }
    let action = server.ready(Event::Send(token, Frame::text("x")));
    assert_eq!(action, Action::Rearm(token, Rearm::Remove(CloseReason::QueueOverflow)));
    assert!(server.client(token).is_none());
    assert!(server.client(keep).unwrap().outgoing().is_empty());
}

#[test]
fn payload_limit_of_the_registry_holds_for_its_connections() {
    let mut server = WebSocketServer::new(Limits { max_payload: 3, max_queued: 4 });
    let token = open(&mut server);
    let action = server.ready(Event::Read(token, ReadInput::Data(masked_text(b"abc"))));
    assert!(matches!(action, Action::Deliver(_, _, Rearm::Reregister(_))));
    let action = server.ready(Event::Read(token, ReadInput::Data(masked_text(b"abcd"))));
    assert_eq!(
        action,
        Action::Rearm(
            token,
            Rearm::Remove(CloseReason::ProtocolViolation(ProtocolError::PayloadTooLarge))
        )
    );
}

#[test]
fn writable_with_nothing_to_write_rearms() {
    let mut server = WebSocketServer::new(LIMITS);
    let token = open(&mut server);
    let action = server.ready(Event::Writable(token));
    assert_eq!(action, Action::Rearm(token, Rearm::Reregister(READABLE)));
    let fresh = accept(&mut server);
    let action = server.ready(Event::Writable(fresh));
    assert_eq!(action, Action::Rearm(fresh, Rearm::Reregister(READABLE)));
}

#[test]
fn partial_write_keeps_the_connection_writable() {
    let mut server = WebSocketServer::new(LIMITS);
    let token = open(&mut server);
    server.ready(Event::Send(token, Frame::text("abcdef")));
    let action = server.ready(Event::Writable(token));
    assert_eq!(action, Action::Write(token, vec![0x81, 6, b'a', b'b', b'c', b'd', b'e', b'f']));
    let action = server.ready(Event::Written(token, WriteResult::Written(3)));
    assert_eq!(action, Action::Rearm(token, Rearm::Reregister(BOTH)));
    let action = server.ready(Event::Writable(token));
    assert_eq!(action, Action::Write(token, vec![b'b', b'c', b'd', b'e', b'f']));
    let action = server.ready(Event::Written(token, WriteResult::WouldBlock));
    assert_eq!(action, Action::Rearm(token, Rearm::Reregister(BOTH)));
    let action = server.ready(Event::Written(token, WriteResult::Written(5)));
    assert_eq!(action, Action::Rearm(token, Rearm::Reregister(READABLE)));
}

#[test]
fn write_error_removes_the_connection() {
    let mut server = WebSocketServer::new(LIMITS);
    let token = open(&mut server);
    server.ready(Event::Send(token, Frame::text("x")));
    server.ready(Event::Writable(token));
    let action = server.ready(Event::Written(token, WriteResult::Failed));
    assert_eq!(action, Action::Rearm(token, Rearm::Remove(CloseReason::IoError)));
    assert!(server.client(token).is_none());
}

#[test]
fn failed_registration_removes_the_connection() {
    let mut server = WebSocketServer::new(LIMITS);
    let token = accept(&mut server);
    let other = accept(&mut server);
    let action = server.ready(Event::RegistrationFailed(token));
    assert_eq!(action, Action::Rearm(token, Rearm::Remove(CloseReason::Unregistered)));
    assert!(server.client(token).is_none());
    assert!(server.client(other).is_some());
    assert_eq!(server.len(), 1);
    assert_eq!(server.ready(Event::RegistrationFailed(token)), Action::Ignore);
}

#[test]
fn every_rearm_carries_a_non_empty_interest_set() {
    let mut server = WebSocketServer::new(LIMITS);
    let token = accept(&mut server);
    let events = vec![
        Event::Read(token, ReadInput::WouldBlock),
        Event::Read(token, ReadInput::Handshake(FeedOutcome::More)),
        Event::Writable(token),
        Event::Read(token, ReadInput::Handshake(FeedOutcome::UpgradeReady(headers_with_key()))),
        Event::Read(token, ReadInput::Data(masked_text(b"early"))),
        Event::Written(token, WriteResult::Written(0)),
        Event::Writable(token),
        Event::Written(token, WriteResult::WouldBlock),
        Event::Written(token, WriteResult::Written(RESPONSE.len())),
        Event::Read(token, ReadInput::Data(masked_text(b"ping"))),
        Event::Send(token, Frame::text("pong")),
        Event::Writable(token),
        Event::Written(token, WriteResult::Written(1)),
        Event::Writable(token),
        Event::Written(token, WriteResult::Written(100)),
        Event::Read(token, ReadInput::Data(masked_close())),
    ];
    let mut removed = false;
    for event in events {
        assert!(!removed);
        let rearm = match server.ready(event) {
            Action::Rearm(t, rearm) => {
                assert_eq!(t, token);
                Some(rearm)
            }
            Action::Deliver(t, _, rearm) => {
                assert_eq!(t, token);
                Some(rearm)
            }
            Action::Write(t, bytes) => {
                assert_eq!(t, token);
                assert!(!bytes.is_empty());
                None
            }
            other => panic!("unexpected action {:?}", other),
        };
        match rearm {
            Some(Rearm::Reregister(interest)) => {
                assert!(interest.readable || interest.writable);
                assert_eq!(server.client(token).unwrap().interest(), interest);
            }
            Some(Rearm::Remove(reason)) => {
                assert_eq!(reason, CloseReason::CloseFrame);
                assert!(server.client(token).is_none());
                removed = true;
            }
            None => {
                let interest = server.client(token).unwrap().interest();
                assert!(interest.readable || interest.writable);
            }
        }
    }
    assert!(removed);
}
