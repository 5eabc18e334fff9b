//! Tests of the file cache, path sanity, and the HTTP router pipeline,
//! including the literal end-to-end wire scenarios.

use simple_server::helpers::{path_is_sane, path_starts_with};
use simple_server::http::{HttpServer, Method, Response, Status, Version};
use simple_server::smithy::HttpSmithText;
use simple_server::vfs::{V_file, Vfs};

const DATE: &[u8] = b"Thu, 01 Jan 1970 00:00:00 +0000";

fn file(data: &[u8], modified: i64) -> V_file {
    V_file { data: data.to_vec(), modified }
}

fn server_with_index() -> HttpServer {
    let mut server = HttpServer::new();
    server.add_service(b"/", Method::GET);
    server.set_homepage(b"index.html");
    server.set_404_page(b"missing.html");
    server.set_client_directory(b"client");
    server
        .file_system
        .insert_file(b"index.html".to_vec(), file(b"Hello world!", 60));
    server
        .file_system
        .insert_file(b"missing.html".to_vec(), file(b"not here", 0));
    server
}

fn full_wire(server: &HttpServer, raw: &[u8]) -> Vec<u8> {
    let (request, _) = HttpSmithText.deserialize(raw).unwrap();
    let response = server.handle_request_at(&request, DATE);
    let (mut head, body_path) = HttpSmithText.serialize(&response);
    if let Some(f) = server.file_system.get(&body_path) {
        if response.status != Status::NotModified {
            head.extend_from_slice(&f.data);
        }
    }
    head
}

#[test]
fn cached_file_is_served_with_its_length() {
    let server = server_with_index();
    let wire = full_wire(&server, b"GET /index.html HTTP/1.1\r\nHost: x\r\n\r\n");
    assert!(wire.starts_with(b"HTTP/1.1 200 OK\r\n"));
    assert!(wire.ends_with(b"content-length: 12\r\n\r\nHello world!"));
}

#[test]
fn parent_directory_paths_yield_the_configured_404_page() {
    let server = server_with_index();
    let wire = full_wire(&server, b"GET /../etc/passwd HTTP/1.1\r\nHost: x\r\n\r\n");
    assert!(wire.starts_with(b"HTTP/1.1 404 Not Found\r\n"));
    assert!(wire.ends_with(b"content-length: 8\r\n\r\nnot here"));
}

#[test]
fn empty_path_serves_the_homepage() {
    let server = server_with_index();
    let wire = full_wire(&server, b"GET / HTTP/1.1\r\nHost: x\r\n\r\n");
    assert!(wire.starts_with(b"HTTP/1.1 200 OK\r\n"));
    assert!(wire.ends_with(b"Hello world!"));
}

#[test]
fn uncached_path_yields_the_404_page() {
    let server = server_with_index();
    let wire = full_wire(&server, b"GET /nothing.txt HTTP/1.1\r\nHost: x\r\n\r\n");
    assert!(wire.starts_with(b"HTTP/1.1 404 Not Found\r\n"));
    assert!(wire.ends_with(b"not here"));
}

#[test]
fn if_modified_since_at_the_mtime_yields_not_modified() {
    // index.html is cached with modification time 60; the header names
    // the same instant, so the body is withheld.
    let server = server_with_index();
    let raw = b"GET /index.html HTTP/1.1\r\nIf-Modified-Since: Thu, 01 Jan 1970 00:01:00 +0000\r\n\r\n";
    let (request, _) = HttpSmithText.deserialize(raw).unwrap();
    let response = server.handle_request_at(&request, DATE);
    assert_eq!(response.status, Status::NotModified);
    assert!(response.body.is_empty());
    let (head, _) = HttpSmithText.serialize(&response);
    assert!(head.starts_with(b"HTTP/1.1 304 Not Modified\r\n"));
    assert!(head.ends_with(b"content-length: 0\r\n\r\n"));
}

#[test]
fn if_modified_since_before_the_mtime_serves_the_body() {
    let mut server = server_with_index();
    server
        .file_system
        .insert_file(b"index.html".to_vec(), file(b"Hello world!", 100));
    let raw = b"GET /index.html HTTP/1.1\r\nIf-Modified-Since: Thu, 01 Jan 1970 00:01:00 +0000\r\n\r\n";
    let (request, _) = HttpSmithText.deserialize(raw).unwrap();
    let response = server.handle_request_at(&request, DATE);
    assert_eq!(response.status, Status::Okay);
    assert_eq!(response.body, b"index.html".to_vec());
}

#[test]
fn post_does_not_match_a_get_service() {
    let server = server_with_index();
    let raw = b"POST /index.html HTTP/1.1\r\ncontent-length: 0\r\n\r\n";
    let (request, _) = HttpSmithText.deserialize(raw).unwrap();
    assert!(server.route(&request).is_none());
    // Unrouted requests fall through to a 404 status; the homepage body
    // stands in because the response path was empty.
    let response = server.handle_request_at(&request, DATE);
    assert_eq!(response.status, Status::NotFound);
}

#[test]
fn stripped_path_removes_the_matched_prefix() {
    let mut server = server_with_index();
    server.add_service(b"/api", Method::ANY);
    let raw = b"POST /api/index.html HTTP/1.1\r\ncontent-length: 0\r\n\r\n";
    let (request, _) = HttpSmithText.deserialize(raw).unwrap();
    let i = server.route(&request).unwrap();
    assert_eq!(server.stripped_path(&request, i), b"index.html".to_vec());
}

#[test]
fn finish_response_keeps_a_handler_header_and_appends_the_standard_ones() {
    let server = server_with_index();
    let raw = b"GET /index.html HTTP/1.1\r\nHost: x\r\n\r\n";
    let (request, _) = HttpSmithText.deserialize(raw).unwrap();
    let mut raw_response = Response {
        version: Version::V_1_1,
        status: Status::Okay,
        headers: Vec::new(),
        body: b"index.html".to_vec(),
    };
    raw_response.add_header(b"x-handler", b"yes");
    let finished = server.finish_response(&request, raw_response, DATE);
    assert_eq!(finished.status, Status::Okay);
    assert_eq!(finished.body, b"index.html".to_vec());
    assert_eq!(finished.headers.len(), 4);
    assert_eq!(finished.headers[0].0, b"x-handler".to_vec());
    assert_eq!(finished.headers[1].0, b"server".to_vec());
    assert_eq!(finished.headers[2].0, b"date".to_vec());
    assert_eq!(finished.headers[3].0, b"content-length".to_vec());
    assert_eq!(finished.headers[3].1, b"12".to_vec());
}

#[test]
fn finish_response_substitutes_the_homepage_for_an_empty_body() {
    let server = server_with_index();
    let raw = b"GET / HTTP/1.1\r\nHost: x\r\n\r\n";
    let (request, _) = HttpSmithText.deserialize(raw).unwrap();
    let raw_response = Response {
        version: Version::V_1_1,
        status: Status::Okay,
        headers: Vec::new(),
        body: Vec::new(),
    };
    let finished = server.finish_response(&request, raw_response, DATE);
    assert_eq!(finished.status, Status::Okay);
    assert_eq!(finished.body, b"index.html".to_vec());
}

#[test]
fn finish_response_turns_an_insane_handler_path_into_the_404_page() {
    let server = server_with_index();
    let raw = b"GET / HTTP/1.1\r\nHost: x\r\n\r\n";
    let (request, _) = HttpSmithText.deserialize(raw).unwrap();
    let raw_response = Response {
        version: Version::V_1_1,
        status: Status::Okay,
        headers: Vec::new(),
        body: b"../etc/passwd".to_vec(),
    };
    let finished = server.finish_response(&request, raw_response, DATE);
    assert_eq!(finished.status, Status::NotFound);
    assert_eq!(finished.body, b"missing.html".to_vec());
}

#[test]
fn package_response_pairs_the_head_with_the_cached_body() {
    let server = server_with_index();
    let raw = b"GET /index.html HTTP/1.1\r\nHost: x\r\n\r\n";
    let (request, _) = HttpSmithText.deserialize(raw).unwrap();
    let response = server.handle_request_at(&request, DATE);
    let (head, _) = HttpSmithText.serialize(&response);
    let package = server.package_response(&response).unwrap();
    assert_eq!(package.head, head);
    assert_eq!(package.body.data, b"Hello world!".to_vec());
    assert_eq!(package.writ, 0);
}

#[test]
fn package_response_gives_an_uncached_body_path_an_empty_body() {
    let server = server_with_index();
    let response = Response {
        version: Version::V_1_1,
        status: Status::Okay,
        headers: Vec::new(),
        body: b"nowhere.html".to_vec(),
    };
    let package = server.package_response(&response).unwrap();
    assert!(package.body.data.is_empty());
}

#[test]
fn path_sanity() {
    assert!(path_is_sane(b"index.html"));
    assert!(path_is_sane(b"a/b/c.txt"));
    assert!(path_is_sane(b"./a/b"));
    assert!(path_is_sane(b""));
    assert!(!path_is_sane(b"/etc/passwd"));
    assert!(!path_is_sane(b"../etc/passwd"));
    assert!(!path_is_sane(b"a/../b"));
}

#[test]
fn path_prefixes_match_segment_wise() {
    assert!(path_starts_with(b"/index.html", b"/"));
    assert!(path_starts_with(b"/a/b", b"/a"));
    assert!(!path_starts_with(b"/ab", b"/a"));
    assert!(!path_starts_with(b"a/b", b"/a"));
    assert!(path_starts_with(b"a/b", b"a"));
}

#[test]
fn cache_inserts_replace_and_remove() {
    let mut vfs = Vfs::new();
    vfs.insert_file(b"a".to_vec(), file(b"one", 1));
    vfs.insert_file(b"b".to_vec(), file(b"two", 2));
    assert_eq!(vfs.get(b"a").unwrap().data, b"one".to_vec());
    assert_eq!(vfs.get_size(b"b"), Some(3));
    vfs.insert_file(b"a".to_vec(), file(b"three", 3));
    assert_eq!(vfs.get(b"a").unwrap().data, b"three".to_vec());
    assert_eq!(vfs.files.len(), 2);
    vfs.remove(b"a");
    assert!(vfs.get(b"a").is_none());
    assert!(vfs.get(b"b").is_some());
}

#[test]
fn changelog_blocks_delete_or_name_a_path_to_load() {
    let mut vfs = Vfs::new();
    vfs.insert_file(b"old.html".to_vec(), file(b"x", 0));
    assert_eq!(vfs.apply_diff(b"DELETE\told.html"), None);
    assert!(vfs.get(b"old.html").is_none());
    assert_eq!(vfs.apply_diff(b"new.html"), Some(b"new.html".to_vec()));
}
