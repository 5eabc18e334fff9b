//! Tests of the byte buffer and of the reactor's decision logic: client
//! registration, inbox handling, parsing steps, the application
//! handshake, and disconnect notifications.

use simple_server::buffer::{Buffer, BufferError};
use simple_server::server_G::{
    ByteSink, HandshakeStep, IoErr, Notification, ParseStep,
};
use simple_server::server_G::{send_all, SendTo};
use simple_server::smithy::HttpServer2;
use simple_server::vfs::{Package, V_file};
use simple_server::websocket::{Message, WsServer};

#[test]
fn buffer_append_consume_keeps_cursors_ordered() {
    let mut b = Buffer::with_capacity(16);
    assert!(!b.has_read());
    b.append(b"hello").unwrap();
    assert!(b.has_read());
    assert_eq!(b.the_story_so_far(), b"hello");
    assert!(b.prev_read <= b.read);
    assert!(b.read <= b.data.len());
    assert!(b.data.len() <= b.cap);
    b.consume(2);
    assert_eq!(b.the_story_so_far(), b"llo");
    assert!(b.prev_read <= b.read && b.read <= b.data.len() && b.data.len() <= b.cap);
    b.consume(3);
    assert_eq!(b.read, 0);
    assert_eq!(b.prev_read, 0);
    assert!(b.data.is_empty());
}

#[test]
fn buffer_rejects_past_capacity() {
    let mut b = Buffer::with_capacity(4);
    assert_eq!(b.append(b"12345"), Err(BufferError::BufferFull));
    assert!(b.data.is_empty());
    b.append(b"1234").unwrap();
    assert_eq!(b.append(b"5"), Err(BufferError::BufferFull));
    assert_eq!(b.the_story_so_far(), b"1234");
}

#[test]
fn buffer_is_a_sink() {
    let mut b = Buffer::with_capacity(64);
    assert_eq!(b.sink_write(b"abc"), Ok(3));
    assert!(b.sink_flush().is_ok());
    assert_eq!(b.the_story_so_far(), b"abc");
}

#[test]
fn package_streams_head_then_body() {
    let mut package = Package::new(
        b"HTTP/1.1 200 OK\r\n\r\n".to_vec(),
        V_file { data: b"Hello world!".to_vec(), modified: 0 },
    );
    let mut wire = Buffer::with_capacity(4096);
    // One small chunk per call, then exhaustion.
    let first = package.send_to(&mut wire).unwrap();
    assert!(first > 0);
    send_all(&mut package, &mut wire).unwrap();
    assert_eq!(wire.the_story_so_far(), b"HTTP/1.1 200 OK\r\n\r\nHello world!");
    assert_eq!(package.send_to(&mut wire).unwrap(), 0);
}

#[test]
fn register_yields_fresh_live_clients() {
    let mut server = HttpServer2::new();
    let a = server.register().unwrap();
    let b = server.register().unwrap();
    assert!(a != b);
    assert!(server.contains(a) && server.contains(b));
    assert_eq!(server.clients.len(), 2);
    assert!(server.clients.iter().all(|c| c.is_handshaking && !c.sent_message));
}

#[test]
fn http_request_flows_through_the_reactor() {
    let mut server = HttpServer2::new();
    let id = server.register().unwrap();
    // The no-op handshaker finishes the application handshake at once.
    assert_eq!(server.handshake_step(id), HandshakeStep::Done);
    server.receive_bytes(id, b"GET / HTTP/1.1\r\nHost: x\r\n\r\n").unwrap();
    match server.parse_step(id) {
        ParseStep::Message(req) => {
            assert_eq!(req.path, b"/".to_vec());
        }
        _ => panic!("expected a parsed request"),
    }
    // Immediately after a message, the client is marked as having
    // produced one.
    let c = server.clients.iter().find(|c| c.id == id).unwrap();
    assert!(c.sent_message);
    // The inbox was consumed; a second step waits for more bytes.
    assert!(matches!(server.parse_step(id), ParseStep::Waiting));
}

#[test]
fn malformed_request_drops_the_client() {
    let mut server = HttpServer2::new();
    let id = server.register().unwrap();
    assert_eq!(server.handshake_step(id), HandshakeStep::Done);
    server.receive_bytes(id, b"BREW / HTTP/1.1\r\n\r\n").unwrap();
    assert!(matches!(server.parse_step(id), ParseStep::Dropped));
    assert!(!server.contains(id));
    // The client never produced a message, so nothing is announced.
    assert!(server.next_queued_disconnect().is_none());
}

#[test]
fn overfull_inbox_drops_the_client() {
    let mut server = HttpServer2::new();
    let id = server.register().unwrap();
    let blob = vec![b'a'; 5000];
    assert_eq!(server.receive_bytes(id, &blob), Err(IoErr::BufferFull));
    assert!(!server.contains(id));
}

#[test]
fn disconnects_are_announced_in_drop_order_exactly_once() {
    let mut server = HttpServer2::new();
    let a = server.register().unwrap();
    let b = server.register().unwrap();
    for id in [a, b] {
        assert_eq!(server.handshake_step(id), HandshakeStep::Done);
        server.receive_bytes(id, b"GET / HTTP/1.1\r\nHost: x\r\n\r\n").unwrap();
        assert!(matches!(server.parse_step(id), ParseStep::Message(_)));
    }
    server.drop_client(a);
    server.drop_client(b);
    match server.next_queued_disconnect() {
        Some(Notification::Disconnected(id)) => assert_eq!(id, a),
        _ => panic!("expected the first drop announced first"),
    }
    match server.next_queued_disconnect() {
        Some(Notification::Disconnected(id)) => assert_eq!(id, b),
        _ => panic!("expected the second drop announced second"),
    }
    assert!(server.next_queued_disconnect().is_none());
}

#[test]
fn tls_handshake_failures_are_never_announced() {
    let mut server = HttpServer2::new();
    let id = server.register().unwrap();
    assert_eq!(server.handshake_step(id), HandshakeStep::Done);
    server.receive_bytes(id, b"GET / HTTP/1.1\r\nHost: x\r\n\r\n").unwrap();
    assert!(matches!(server.parse_step(id), ParseStep::Message(_)));
    server.drop_client(id);
    // The drop queued a notification, but the connection then turned out
    // to have failed inside the TLS layer: take the notification back.
    server.suppress_last_disconnect(id);
    assert!(server.next_queued_disconnect().is_none());
}

#[test]
fn suppressing_one_client_never_touches_anothers_notification() {
    let mut server = HttpServer2::new();
    let a = server.register().unwrap();
    let b = server.register().unwrap();
    for id in [a, b] {
        assert_eq!(server.handshake_step(id), HandshakeStep::Done);
        server.receive_bytes(id, b"GET / HTTP/1.1\r\nHost: x\r\n\r\n").unwrap();
        assert!(matches!(server.parse_step(id), ParseStep::Message(_)));
    }
    // Only client a's drop is queued; suppressing b finds no matching
    // entry and a's announcement survives.
    server.drop_client(a);
    server.suppress_last_disconnect(b);
    match server.next_queued_disconnect() {
        Some(Notification::Disconnected(id)) => assert_eq!(id, a),
        _ => panic!("expected client a's disconnect to survive"),
    }
}

#[test]
fn exhausted_package_reports_zero_without_writing() {
    let mut package = Package::new(b"ab".to_vec(), V_file { data: b"c".to_vec(), modified: 0 });
    let mut wire = Buffer::with_capacity(64);
    assert_eq!(send_all(&mut package, &mut wire), Ok(3));
    assert_eq!(wire.the_story_so_far(), b"abc");
    // The delivery is spent: another drive writes nothing more.
    assert_eq!(package.send_to(&mut wire), Ok(0));
    assert_eq!(send_all(&mut package, &mut wire), Ok(0));
    assert_eq!(wire.the_story_so_far(), b"abc");
}

/// A sink standing in for a transport that cannot take bytes right now.
struct WouldBlockSink;

impl ByteSink for WouldBlockSink {
    fn sink_write(&mut self, _buf: &[u8]) -> Result<usize, IoErr> {
        Err(IoErr::WouldBlock)
    }

    fn sink_flush(&mut self) -> Result<(), IoErr> {
        Ok(())
    }
}

#[test]
fn fatal_write_error_drops_the_client() {
    let mut server = HttpServer2::new();
    let id = server.register().unwrap();
    assert_eq!(server.handshake_step(id), HandshakeStep::Done);
    server.receive_bytes(id, b"GET / HTTP/1.1\r\nHost: x\r\n\r\n").unwrap();
    assert!(matches!(server.parse_step(id), ParseStep::Message(_)));
    // A sink too small for the response head refuses the write fatally:
    // the reactor itself drops the client and queues the disconnect.
    let mut tiny = Buffer::with_capacity(2);
    let package = Package::new(
        b"HTTP/1.1 200 OK\r\n\r\n".to_vec(),
        V_file { data: Vec::new(), modified: 0 },
    );
    assert_eq!(server.send_to_client(id, package, &mut tiny), Err(IoErr::BufferFull));
    assert!(!server.contains(id));
    assert!(matches!(
        server.next_queued_disconnect(),
        Some(Notification::Disconnected(_))
    ));
}

#[test]
fn would_block_write_keeps_the_client() {
    let mut server = HttpServer2::new();
    let id = server.register().unwrap();
    let package = Package::new(
        b"HTTP/1.1 200 OK\r\n\r\n".to_vec(),
        V_file { data: Vec::new(), modified: 0 },
    );
    let mut sink = WouldBlockSink;
    assert_eq!(
        server.send_to_client(id, package, &mut sink),
        Err(IoErr::WouldBlock)
    );
    assert!(server.contains(id));
}

#[test]
fn inbox_cap_is_configured_on_the_reactor() {
    let mut server = HttpServer2::new();
    server.inbox_cap = 8;
    let id = server.register().unwrap();
    assert!(server.receive_bytes(id, b"12345678").is_ok());
    assert!(server.receive_bytes(id, b"9").is_err());
    assert!(!server.contains(id));
}

#[test]
fn heartbeat_accounting() {
    let mut server = HttpServer2::new();
    assert_eq!(server.heartbeat_decision(100), (None, false));
    server.heartbeat = Some(500);
    assert_eq!(server.heartbeat_decision(200), (Some(300), false));
    assert_eq!(server.heartbeat_decision(500), (Some(0), true));
    assert_eq!(server.heartbeat_decision(900), (Some(0), true));
    server.heartbeat = Some(0);
    // A zero interval polls non-blocking; the quiet-pass heartbeat is the
    // embedder's to emit.
    assert_eq!(server.heartbeat_decision(42), (Some(0), false));
}

#[test]
fn websocket_upgrade_then_message() {
    let mut server = WsServer::new();
    let id = server.register().unwrap();
    // Nothing readable yet: the handshaker waits.
    assert_eq!(server.handshake_step(id), HandshakeStep::Waiting);
    let upgrade = b"GET /chat HTTP/1.1\r\nUpgrade: websocket\r\nConnection: Upgrade\r\nSec-WebSocket-Key: dGhlIHNhbXBsZSBub25jZQ==\r\nSec-WebSocket-Version: 13\r\n\r\n";
    server.receive_bytes(id, upgrade).unwrap();
    assert_eq!(server.handshake_step(id), HandshakeStep::Respond);
    // Drain the 101 reply into a sink standing in for the TLS stream.
    let mut wire = Buffer::with_capacity(4096);
    server.drive_handshaker(id, &mut wire).unwrap();
    let reply = wire.the_story_so_far();
    let expect = b"HTTP/1.1 101 Switching Protocols\r\nUpgrade: websocket\r\nConnection: Upgrade\r\nSec-WebSocket-Accept: s3pPLMBiTxaQ9kYGzzhZRbK+xOo=\r\n\r\n";
    assert_eq!(reply, &expect[..]);
    // With the reply drained the handshake completes.
    assert_eq!(server.handshake_step(id), HandshakeStep::Done);
    // A masked text frame now parses as an application message.
    let key = [0x37, 0xfa, 0x21, 0x3d];
    let mut frame = vec![0x81, 0x82];
    frame.extend_from_slice(&key);
    frame.push(b'H' ^ key[0]);
    frame.push(b'i' ^ key[1]);
    server.receive_bytes(id, &frame).unwrap();
    match server.parse_step(id) {
        ParseStep::Message(Message::Text(t)) => assert_eq!(t, "Hi"),
        _ => panic!("expected a text message"),
    }
}

#[test]
fn websocket_send_message_writes_one_frame() {
    let mut server = WsServer::new();
    let id = server.register().unwrap();
    let mut wire = Buffer::with_capacity(4096);
    server
        .send_message(id, Message::Text("Hi".to_string()), &mut wire)
        .unwrap();
    assert_eq!(wire.the_story_so_far(), &[0x81, 2, b'H', b'i']);
}

#[test]
fn bad_upgrade_request_drops_the_client() {
    let mut server = WsServer::new();
    let id = server.register().unwrap();
    // An upgrade request without a Sec-WebSocket-Key fails the handshake.
    server
        .receive_bytes(id, b"GET /chat HTTP/1.1\r\nHost: x\r\n\r\n")
        .unwrap();
    assert_eq!(server.handshake_step(id), HandshakeStep::Dropped);
    assert!(!server.contains(id));
}
