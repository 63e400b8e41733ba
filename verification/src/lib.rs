//! A verified encoder for the MessagePack wire format.
//!
//! The library serializes a dynamically typed, tree-shaped value
//! ([`value::ValueRef`]) into the MessagePack binary format, writing the
//! bytes to an abstract byte sink ([`sink::ByteSink`]).  The exact byte
//! sequence produced for every tree is pinned down by the specification
//! function [`format::encoding`], and the encoder is proved to emit exactly
//! that sequence, or a prefix of it when the sink fails part-way.

pub mod decode;
pub mod encode;
pub mod format;
pub mod prim;
pub mod sink;
pub mod value;
