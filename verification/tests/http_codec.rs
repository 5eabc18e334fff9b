//! Tests of the HTTP/1.1 wire codec: request parsing, response
//! serialization, and the error taxonomy.

use simple_server::http::{Method, Status, Version};
use simple_server::http::{Header, Response};
use simple_server::smithy::{HttpSmithText, ParseError};

fn parse(bytes: &[u8]) -> Result<(simple_server::http::Request, usize), ParseError> {
    HttpSmithText.deserialize(bytes)
}

#[test]
fn parse_simple_get() {
    let wire = b"GET /index.html HTTP/1.1\r\nHost: x\r\n\r\n";
    let (req, consumed) = parse(wire).unwrap();
    assert_eq!(consumed, wire.len());
    assert_eq!(req.method, Method::GET);
    assert_eq!(req.path, b"/index.html".to_vec());
    assert!(matches!(req.version, Version::V_1_1));
    assert_eq!(req.headers.len(), 1);
    assert_eq!(req.headers[0].0, b"host".to_vec());
    assert_eq!(req.headers[0].1, b"x".to_vec());
    assert!(req.body.is_empty());
}

#[test]
fn leading_terminator_is_consumed_not_an_empty_request() {
    // Whitespace before the request line: a leading \r\n\r\n is eaten.
    let wire = b"\r\n\r\nGET / HTTP/1.1\r\nHost: x\r\n\r\n";
    let (req, consumed) = parse(wire).unwrap();
    assert_eq!(req.method, Method::GET);
    assert_eq!(consumed, wire.len());
}

#[test]
fn content_length_zero_leaves_trailing_bytes() {
    let wire = b"POST / HTTP/1.1\r\ncontent-length: 0\r\n\r\nEXTRA";
    let (req, consumed) = parse(wire).unwrap();
    assert!(req.body.is_empty());
    assert_eq!(consumed, wire.len() - 5);
    assert_eq!(&wire[consumed..], b"EXTRA");
}

#[test]
fn content_length_frames_the_body() {
    let wire = b"POST /up HTTP/1.1\r\ncontent-length: 5\r\n\r\nhelloXX";
    let (req, consumed) = parse(wire).unwrap();
    assert_eq!(req.body, b"hello".to_vec());
    assert_eq!(consumed, wire.len() - 2);
}

#[test]
fn short_body_is_incomplete() {
    let wire = b"POST / HTTP/1.1\r\ncontent-length: 9\r\n\r\nhello";
    assert_eq!(parse(wire).unwrap_err(), ParseError::Incomplete);
}

#[test]
fn missing_terminator_is_incomplete() {
    assert_eq!(
        parse(b"GET / HTTP/1.1\r\nHost: x\r\n").unwrap_err(),
        ParseError::Incomplete
    );
}

#[test]
fn bad_method_is_rejected() {
    assert_eq!(
        parse(b"BREW / HTTP/1.1\r\n\r\n").unwrap_err(),
        ParseError::BadMethod
    );
}

#[test]
fn bad_status_line_is_rejected() {
    assert_eq!(parse(b"GET /\r\n\r\n").unwrap_err(), ParseError::BadStatusLine);
}

#[test]
fn unknown_version_is_rejected() {
    assert_eq!(
        parse(b"GET / HTTP/9\r\n\r\n").unwrap_err(),
        ParseError::UnknownVersion
    );
}

#[test]
fn version_is_case_insensitive() {
    let (req, _) = parse(b"GET / http/1.1\r\n\r\n").unwrap();
    assert!(matches!(req.version, Version::V_1_1));
}

#[test]
fn bare_carriage_return_is_rejected() {
    assert_eq!(
        parse(b"GET / HTTP/1.1\rX\r\n\r\n").unwrap_err(),
        ParseError::BareCarriageReturn
    );
}

#[test]
fn high_byte_in_head_is_rejected() {
    assert_eq!(
        parse(b"GET /\x80 HTTP/1.1\r\n\r\n").unwrap_err(),
        ParseError::InvalidCharacter
    );
}

#[test]
fn header_without_colon_is_rejected() {
    assert_eq!(
        parse(b"GET / HTTP/1.1\r\nHost x\r\n\r\n").unwrap_err(),
        ParseError::MissingValueInField
    );
}

#[test]
fn whitespace_before_colon_is_rejected() {
    assert_eq!(
        parse(b"GET / HTTP/1.1\r\nHost : x\r\n\r\n").unwrap_err(),
        ParseError::WhitespaceBeforeColon
    );
}

#[test]
fn obsolete_line_folding_is_rejected() {
    assert_eq!(
        parse(b"GET / HTTP/1.1\r\n host: x\r\n\r\n").unwrap_err(),
        ParseError::DeprecatedHeaderFolding
    );
}

#[test]
fn invalid_content_length_is_rejected() {
    assert_eq!(
        parse(b"GET / HTTP/1.1\r\ncontent-length: abc\r\n\r\n").unwrap_err(),
        ParseError::InvalidContentLength
    );
}

#[test]
fn trailing_whitespace_on_start_line_is_rejected() {
    assert_eq!(
        parse(b"GET / HTTP/1.1\t\r\n\r\n").unwrap_err(),
        ParseError::WhiteSpaceAfterStartLine
    );
}

#[test]
fn query_without_equals_is_rejected() {
    assert_eq!(
        parse(b"GET /p?x HTTP/1.1\r\n\r\n").unwrap_err(),
        ParseError::BadQuery
    );
}

#[test]
fn query_parameters_are_split() {
    let (req, _) = parse(b"GET /p?a=1&b=2 HTTP/1.1\r\n\r\n").unwrap();
    assert_eq!(req.path, b"/p".to_vec());
    assert_eq!(req.query_params.len(), 2);
    assert_eq!(req.query_params[0], (b"a".to_vec(), b"1".to_vec()));
    assert_eq!(req.query_params[1], (b"b".to_vec(), b"2".to_vec()));
}

#[test]
fn header_keys_are_lowercased_and_values_trimmed() {
    let (req, _) = parse(b"GET / HTTP/1.1\r\nHoSt:  x  \r\n\r\n").unwrap();
    assert_eq!(req.headers[0].0, b"host".to_vec());
    assert_eq!(req.headers[0].1, b"x".to_vec());
}

#[test]
fn content_length_accepts_a_leading_plus() {
    // The decimal parser mirrors the standard unsigned parser, sign
    // included.
    let wire = b"POST / HTTP/1.1\r\ncontent-length: +5\r\n\r\nhello";
    let (req, _) = parse(wire).unwrap();
    assert_eq!(req.body, b"hello".to_vec());
}

#[test]
fn repeated_header_keys_keep_the_last_value() {
    let (req, _) = parse(b"GET / HTTP/1.1\r\nHost: a\r\nHost: b\r\n\r\n").unwrap();
    assert_eq!(req.headers.len(), 1);
    assert_eq!(req.headers[0].1, b"b".to_vec());
}

#[test]
fn serializer_emits_status_line_headers_and_blank_line() {
    let response = Response {
        version: Version::V_1_1,
        status: Status::Okay,
        headers: vec![Header(b"a".to_vec(), b"b".to_vec())],
        body: b"file.html".to_vec(),
    };
    let (head, body_path) = HttpSmithText.serialize(&response);
    assert_eq!(head, b"HTTP/1.1 200 OK\r\na: b\r\n\r\n".to_vec());
    assert_eq!(body_path, b"file.html".to_vec());
}

#[test]
fn wire_round_trips_through_the_parser() {
    // Re-serializing the parsed pieces of a bare request gives the wire
    // back byte for byte.
    let wire = b"GET /a/b.html HTTP/1.1\r\n\r\n";
    let (req, consumed) = parse(wire).unwrap();
    assert_eq!(consumed, wire.len());
    let mut rebuilt = b"GET ".to_vec();
    rebuilt.extend_from_slice(&req.path);
    rebuilt.extend_from_slice(b" ");
    rebuilt.extend_from_slice(req.version.to_str().as_bytes());
    rebuilt.extend_from_slice(b"\r\n\r\n");
    assert_eq!(rebuilt, wire.to_vec());
}

#[test]
fn serialized_request_parses_back_to_the_same_request() {
    // The serializer and the parser are inverse: the serialized GET
    // parses back to the same pieces, consuming the whole wire.
    let wire = simple_server::smithy::serialize_request(b"/a/b.html");
    assert_eq!(wire, b"GET /a/b.html HTTP/1.1\r\n\r\n".to_vec());
    let (req, consumed) = parse(&wire).unwrap();
    assert_eq!(consumed, wire.len());
    assert_eq!(req.method, Method::GET);
    assert_eq!(req.path, b"/a/b.html".to_vec());
    assert!(matches!(req.version, Version::V_1_1));
    assert!(req.headers.is_empty());
    assert!(req.query_params.is_empty());
    assert!(req.body.is_empty());
}

#[test]
fn serialized_request_with_header_parses_back_to_the_same_request() {
    let wire = simple_server::smithy::serialize_request_with_header(b"/x", b"host", b"example");
    assert_eq!(wire, b"GET /x HTTP/1.1\r\nhost: example\r\n\r\n".to_vec());
    let (req, consumed) = parse(&wire).unwrap();
    assert_eq!(consumed, wire.len());
    assert_eq!(req.path, b"/x".to_vec());
    assert_eq!(req.headers.len(), 1);
    assert_eq!(req.headers[0].0, b"host".to_vec());
    assert_eq!(req.headers[0].1, b"example".to_vec());
}

#[test]
fn reserializing_a_parsed_request_normalizes_header_case_only() {
    // Serializing what the parser yielded differs from the original
    // wire only by the parser's case folding of the header key.
    let original = b"GET /x HTTP/1.1\r\nHoSt: example\r\n\r\n";
    let (req, consumed) = parse(original).unwrap();
    assert_eq!(consumed, original.len());
    let rebuilt = simple_server::smithy::serialize_request_with_header(
        &req.path,
        &req.headers[0].0,
        &req.headers[0].1,
    );
    assert_eq!(rebuilt, b"GET /x HTTP/1.1\r\nhost: example\r\n\r\n".to_vec());
    let (req2, _) = parse(&rebuilt).unwrap();
    assert_eq!(req2.path, req.path);
    assert_eq!(req2.headers, req.headers);
}

#[test]
fn reserializing_a_canonical_wire_is_the_identity() {
    // A wire already in the parser's normal form survives the parse and
    // re-serialize round trip byte for byte.
    let original = b"GET /x HTTP/1.1\r\nhost: example\r\n\r\n";
    let (req, _) = parse(original).unwrap();
    let rebuilt = simple_server::smithy::serialize_request_with_header(
        &req.path,
        &req.headers[0].0,
        &req.headers[0].1,
    );
    assert_eq!(rebuilt, original.to_vec());
}

#[test]
fn method_parse_table() {
    assert_eq!(Method::parse(b"GET"), Some(Method::GET));
    assert_eq!(Method::parse(b"POST"), Some(Method::POST));
    assert_eq!(Method::parse(b"get"), None);
    assert_eq!(Method::parse(b"DELETE"), None);
}

#[test]
fn version_round_trip_text() {
    assert_eq!(Version::parse(b"HTTP/1.1").unwrap().to_str(), "HTTP/1.1");
    assert_eq!(Version::parse(b"http/2").unwrap().to_str(), "HTTP/2");
    assert_eq!(Version::parse(b"HTTP/1.0"), None);
}

#[test]
fn status_lines() {
    assert_eq!(Status::Okay.to_status_line(), "200 OK");
    assert_eq!(Status::NotFound.to_status_line(), "404 Not Found");
    assert_eq!(Status::NotModified.to_status_line(), "304 Not Modified");
    assert_eq!(
        Status::SwitchingProtocols.to_status_line(),
        "101 Switching Protocols"
    );
}
