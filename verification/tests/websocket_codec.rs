//! Tests of the WebSocket frame codec, message assembly, masking, the
//! minimal length encodings, and the upgrade accept computation.

use simple_server::websocket::{
    compute_sec_websocket_accept, encode_frame_header, encode_message_frame, parse_message,
    read_frame, unmask_bytes, upgrade_response_bytes, Message, WebSocketError, WsParser, OPCODE,
};

fn mask_payload(payload: &[u8], key: [u8; 4]) -> Vec<u8> {
    let mut out = Vec::new();
    for (i, b) in payload.iter().enumerate() {
        out.push(b ^ key[i % 4]);
    }
    out
}

fn masked_frame(b0: u8, payload: &[u8], key: [u8; 4]) -> Vec<u8> {
    assert!(payload.len() < 126);
    let mut frame = vec![b0, 0x80 | (payload.len() as u8)];
    frame.extend_from_slice(&key);
    frame.extend_from_slice(&mask_payload(payload, key));
    frame
}

#[test]
fn single_masked_text_frame_decodes() {
    // Opcode 1, FIN set, length 2, mask 0x37fa213d.
    let frame = masked_frame(0x81, b"Hi", [0x37, 0xfa, 0x21, 0x3d]);
    assert_eq!(frame[0], 0x81);
    assert_eq!(frame[1], 0x82);
    assert_eq!(frame[6], b'H' ^ 0x37);
    let mut incoming = None;
    let (msg, consumed) = parse_message(&mut incoming, &frame).unwrap();
    assert_eq!(consumed, frame.len());
    match msg.unwrap() {
        Message::Text(t) => assert_eq!(t, "Hi"),
        Message::Binary(_) => panic!("expected text"),
    }
    assert!(incoming.is_none());
}

#[test]
fn fragmented_text_frames_assemble() {
    let key = [0x37, 0xfa, 0x21, 0x3d];
    let mut wire = masked_frame(0x01, b"He", key);
    wire.extend_from_slice(&masked_frame(0x80, b"llo", key));
    let mut incoming = None;
    let (msg, consumed) = parse_message(&mut incoming, &wire).unwrap();
    assert_eq!(consumed, wire.len());
    match msg.unwrap() {
        Message::Text(t) => assert_eq!(t, "Hello"),
        Message::Binary(_) => panic!("expected text"),
    }
}

#[test]
fn binary_frames_assemble() {
    let key = [1, 2, 3, 4];
    let wire = masked_frame(0x82, &[9, 8, 7], key);
    let mut incoming = None;
    let (msg, _) = parse_message(&mut incoming, &wire).unwrap();
    match msg.unwrap() {
        Message::Binary(b) => assert_eq!(b, vec![9, 8, 7]),
        Message::Text(_) => panic!("expected binary"),
    }
}

#[test]
fn unmask_mask_round_trips() {
    let key = [0xaa, 0x01, 0x55, 0xfe];
    let payload = b"any payload at all, of any length 0123456789";
    let masked = unmask_bytes(payload, &key);
    let unmasked = unmask_bytes(&masked, &key);
    assert_eq!(unmasked, payload.to_vec());
}

#[test]
fn reserved_bits_are_rejected() {
    let frame = masked_frame(0xc1, b"Hi", [0, 0, 0, 0]);
    assert_eq!(read_frame(&frame).unwrap_err(), WebSocketError::UNRESERVED);
}

#[test]
fn unknown_opcode_is_rejected() {
    let frame = masked_frame(0x83, b"Hi", [0, 0, 0, 0]);
    assert_eq!(read_frame(&frame).unwrap_err(), WebSocketError::BAD_OPCODE);
}

#[test]
fn unmasked_client_frame_is_rejected() {
    let wire = vec![0x81, 0x02, b'H', b'i', 0, 0];
    assert_eq!(read_frame(&wire).unwrap_err(), WebSocketError::UNMASKED);
}

#[test]
fn partial_frame_would_block() {
    let frame = masked_frame(0x81, b"Hello", [1, 2, 3, 4]);
    assert_eq!(
        read_frame(&frame[..frame.len() - 2]).unwrap_err(),
        WebSocketError::WOULD_BLOCK
    );
    let mut parser = WsParser::default();
    let (none, consumed) = parser.parse(&frame[..4]).unwrap();
    assert!(none.is_none());
    assert_eq!(consumed, 0);
}

#[test]
fn fragments_split_across_calls_stay_coherent() {
    // A complete non-FIN frame plus a partial continuation: the folded
    // frame's bytes are reported as consumed, so feeding the rest later
    // completes the message instead of tripping over the first frame.
    let key = [0x37, 0xfa, 0x21, 0x3d];
    let first = masked_frame(0x01, b"He", key);
    let second = masked_frame(0x80, b"llo", key);
    let mut wire = first.clone();
    wire.extend_from_slice(&second[..3]);
    let mut parser = WsParser::default();
    let (none, consumed) = parser.parse(&wire).unwrap();
    assert!(none.is_none());
    assert_eq!(consumed, first.len());
    let (msg, consumed2) = parser.parse(&second).unwrap();
    assert_eq!(consumed2, second.len());
    match msg.unwrap() {
        Message::Text(t) => assert_eq!(t, "Hello"),
        Message::Binary(_) => panic!("expected text"),
    }
}

#[test]
fn continuation_without_start_is_rejected() {
    let wire = masked_frame(0x80, b"Hi", [0, 0, 0, 0]);
    let mut incoming = None;
    assert_eq!(
        parse_message(&mut incoming, &wire).unwrap_err(),
        WebSocketError::BAD_CONTINUE
    );
}

#[test]
fn cutting_in_is_rejected() {
    let key = [0, 0, 0, 0];
    let mut wire = masked_frame(0x01, b"He", key);
    wire.extend_from_slice(&masked_frame(0x01, b"llo", key));
    let mut incoming = None;
    assert_eq!(
        parse_message(&mut incoming, &wire).unwrap_err(),
        WebSocketError::CUTTING_IN
    );
}

#[test]
fn control_frames_are_unimplemented() {
    let wire = masked_frame(0x88, b"", [0, 0, 0, 0]);
    let mut incoming = None;
    assert_eq!(
        parse_message(&mut incoming, &wire).unwrap_err(),
        WebSocketError::UNIMPLEMENTED
    );
}

#[test]
fn invalid_utf8_in_text_is_rejected() {
    let wire = masked_frame(0x81, &[0xff, 0xfe], [0, 0, 0, 0]);
    let mut incoming = None;
    assert_eq!(
        parse_message(&mut incoming, &wire).unwrap_err(),
        WebSocketError::NOT_VALID_UTF8
    );
}

#[test]
fn extended_sixteen_bit_length_decodes() {
    let key = [5, 6, 7, 8];
    let payload = vec![0x41u8; 300];
    let mut wire = vec![0x82, 0x80 | 126, 1, 44];
    wire.extend_from_slice(&key);
    wire.extend_from_slice(&mask_payload(&payload, key));
    let (frame, consumed) = read_frame(&wire).unwrap();
    assert_eq!(consumed, wire.len());
    assert_eq!(frame.payload.len(), 300);
    assert!(frame.fin);
}

#[test]
fn payload_lengths_use_the_minimal_form() {
    // 125 fits the one-byte form; 126 and 65535 the two-byte extension;
    // 65536 the eight-byte extension.
    let h125 = encode_frame_header(OPCODE::Binary, 125);
    assert_eq!(h125, vec![0x82, 125]);
    let h126 = encode_frame_header(OPCODE::Binary, 126);
    assert_eq!(h126, vec![0x82, 126, 0, 126]);
    let h65535 = encode_frame_header(OPCODE::Binary, 65535);
    assert_eq!(h65535, vec![0x82, 126, 255, 255]);
    let h65536 = encode_frame_header(OPCODE::Binary, 65536);
    assert_eq!(h65536, vec![0x82, 127, 0, 0, 0, 0, 0, 1, 0, 0]);
}

#[test]
fn outbound_message_is_one_fin_frame() {
    let bytes = encode_message_frame(&Message::Text("Hi".to_string()));
    assert_eq!(bytes, vec![0x81, 2, b'H', b'i']);
    let bin = encode_message_frame(&Message::Binary(vec![1, 2, 3]));
    assert_eq!(bin, vec![0x82, 3, 1, 2, 3]);
}

#[test]
fn sample_key_yields_the_rfc_accept_token() {
    let accept = compute_sec_websocket_accept(b"dGhlIHNhbXBsZSBub25jZQ==");
    assert_eq!(accept, "s3pPLMBiTxaQ9kYGzzhZRbK+xOo=");
}

#[test]
fn accept_token_is_deterministic() {
    let a = compute_sec_websocket_accept(b"dGhlIHNhbXBsZSBub25jZQ==");
    let b = compute_sec_websocket_accept(b"dGhlIHNhbXBsZSBub25jZQ==");
    assert_eq!(a, b);
}

#[test]
fn upgrade_response_carries_the_accept_header() {
    let bytes = upgrade_response_bytes(b"dGhlIHNhbXBsZSBub25jZQ==");
    let expect = b"HTTP/1.1 101 Switching Protocols\r\nUpgrade: websocket\r\nConnection: Upgrade\r\nSec-WebSocket-Accept: s3pPLMBiTxaQ9kYGzzhZRbK+xOo=\r\n\r\n";
    assert_eq!(bytes, expect.to_vec());
}
