//! A small download-service library: it turns a directory listing into a
//! tar byte stream, wraps the archive in an HTTP response model, maps
//! service errors to a JSON error envelope, and models the server's
//! graceful shutdown. Every function is verified against the spec functions
//! that state the exact bytes and transitions.
pub mod json;
pub mod lifecycle;
pub mod server;
pub mod tar;
pub mod types;
