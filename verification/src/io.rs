//! Byte buffers and the primitive encodings of the wire format.

pub mod rwbuf;
pub mod wire;
