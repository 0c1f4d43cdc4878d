//! Decoder for binary-encoded AMQP 0-9-1 method arguments and field tables.
//!
//! A decode call takes a format descriptor (one tag character per field), a
//! byte buffer and a start offset, and returns the ordered sequence of
//! decoded values together with the offset just past the consumed bytes.
//! Field tables and arrays nest to arbitrary depth under their own tag
//! vocabulary; consecutive boolean fields share a bit-packed byte.

pub mod value;
pub mod wire;
pub mod cursor;
pub mod text;
pub mod scalars;
pub mod item;
pub mod decode;
pub mod laws;
