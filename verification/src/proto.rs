//! The protocol: messages, declarations, their wire format, and the
//! primitives that both ends of a session speak.

pub mod flag;
pub mod decl;
pub mod msg;
pub mod codec;
pub mod roundtrip;
pub mod msg_reader;
pub mod msg_writer;
pub mod primitives;
pub mod mux;
pub mod demux;
