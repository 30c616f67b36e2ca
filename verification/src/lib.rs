//! Binary codec for a component-model wire format: LEB128 variable-length
//! integers, length-prefixed UTF-8 text, and resumable composite decoders
//! (tuples, options, results, length-prefixed vectors) over a growable byte
//! buffer.

pub mod buffer;
pub mod codec;
pub mod core_codec;
pub mod utf8;
pub mod values;
pub mod varint;
