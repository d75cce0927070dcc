//! A personal server-bookmark manager: a registry of named server profiles
//! (address, port, authentication method) persisted as a single JSON
//! document, together with the dispatch logic that turns a stored profile
//! into the argument list of an external remote-shell invocation.
//!
//! The crate holds the verified core: the registry operations, the document
//! codec, and the connection dispatcher. File and process I/O live outside.

pub mod codec;
pub mod dispatch;
pub mod profile;
