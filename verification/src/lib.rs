//! A minimal HTTP/1.1 origin server core: request parsing, routing and
//! response framing, on bytes.

pub mod connection;
pub mod framing;
pub mod primitives;
pub mod request;
pub mod response;
pub mod router;
pub mod text;
