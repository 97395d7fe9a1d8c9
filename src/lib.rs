//! A minimal HTTP/1.1 server core: a request parser, a router, a response
//! serializer and the per-connection protocol state machine that drives them.
//! The byte stream, the file system and the listener are supplied by the caller.

pub mod bytes;
pub mod connection;
pub mod request;
pub mod response;
pub mod router;
