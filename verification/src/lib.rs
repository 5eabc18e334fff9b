//! A single-threaded TLS-terminating network server core: a growable
//! append-and-consume byte buffer, an HTTP/1.1 wire codec, a WebSocket frame
//! codec with its upgrade handshake, an in-memory file cache, and the
//! decision logic of the connection reactor that multiplexes many clients
//! over one event notifier.

#![allow(nonstandard_style)]

pub mod TLS;
pub mod buffer;
pub mod helpers;
pub mod http;
pub mod server_G;
pub mod smithy;
pub mod vfs;
pub mod websocket;

pub use buffer::Buffer;
