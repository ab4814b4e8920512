//! A compact binary serialization codec for tagged values.
//!
//! A [`Value`] is a closed tagged union: null, booleans, integers, IEEE-754
//! doubles (carried as their bit pattern), UTF-8 strings, raw byte strings,
//! arrays, and maps with unique keys.  [`encode_to`] appends the canonical
//! byte representation of a value to a byte sink, always choosing the most
//! compact tag family for the value's runtime size.  [`decode_from`] reads
//! exactly one value back, dispatching on the leading tag byte.
//!
//! The wire format is specified by the spec functions [`enc`](codec::enc) and
//! [`dec`](codec::dec); the executable encoder and decoder are verified
//! against them, and [`lemma_round_trip`](laws::lemma_round_trip) proves that
//! decoding an encoded value reconstructs it exactly.

pub mod value;
pub mod wire;
pub mod codec;
pub mod encode;
pub mod decode;
pub mod laws;

pub use value::Error;
pub use value::Value;
pub use value::ValueView;
pub use value::value_eq;
pub use encode::encode_to;
pub use decode::decode_from;
