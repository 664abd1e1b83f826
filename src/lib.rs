//! HTTP/1.1 message framing: a grammar for request and response heads,
//! chunked bodies and transfer codings, the rules that decide where a body
//! ends, and a buffered byte channel that lets a message arrive in pieces.
//! Every parser returns the rest of its input, needs more input, or fails,
//! and says which in its contract.

pub mod misc;
pub mod text;
pub mod ast;
pub mod grammar;
pub mod uri;
pub mod api;
pub mod io;
pub mod server;
pub mod transducers;
pub mod predicates;
pub mod laws;
