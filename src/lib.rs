//! PackStream: the compact, marker-prefixed binary encoding of the values
//! exchanged over a graph-database wire protocol.
//!
//! - `value`: the values, executable and as mathematical objects.
//! - `wire`: the marker table and the canonical encoding, as spec functions.
//! - `encode`: the encoder, proved to write the canonical encoding.
//! - `grammar`: the decoding grammar, as spec functions.
//! - `decode`: the decoder, proved to follow the grammar.
//! - `laws`: round trip, minimal integers, permissive integers, streaming lists
//!   and maps, the length bound.
//! - `prefix`: inputs cut short ask for more input.
pub mod value;
pub mod wire;
pub mod encode;
pub mod grammar;
pub mod decode;
pub mod laws;
pub mod prefix;
