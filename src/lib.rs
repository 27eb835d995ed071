//! A node of a line-delimited JSON message protocol: the wire codec, the
//! handshake state machine, the message-id sequencer, request/reply
//! correlation and dispatch of requests to registered handlers.

pub mod json;
pub mod message;
pub mod node;
pub mod codec;
pub mod text;
