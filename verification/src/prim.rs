//! The primitive scalar encoders.
//!
//! Every marker-selection decision is delegated to the `rmp` encoding
//! library, which this module trusts: each wrapper runs one `rmp` encoder
//! into an in-memory buffer (which cannot refuse bytes; its error type is
//! uninhabited) and hands the bytes back, and its contract states the exact
//! bytes that the `rmp` source produces.  The two float forms are built
//! here instead, from the raw IEEE-754 bits, because their wire form is
//! fixed: the marker followed by the bits in big-endian order.

use vstd::prelude::*;

use crate::format::{
    array_len_bytes, be32, be64, bin_len_bytes, ext_meta_bytes, f32_bytes, f64_bytes,
    map_len_bytes, sint_bytes, str_len_bytes, uint_bytes,
};

verus! {

/// Relies on `rmp::encode::write_nil`: a single `0xc0` marker byte.
#[verifier::external_body]
pub(crate) fn nil_to_vec() -> (r: Vec<u8>)
    ensures
        r@ == seq![0xc0u8],
{
    let mut buf = rmp::encode::ByteBuf::new();
    let _ = rmp::encode::write_nil(&mut buf);
    buf.into_vec()
}

/// Relies on `rmp::encode::write_bool`: a single marker byte, `0xc3` for
/// true and `0xc2` for false.
#[verifier::external_body]
pub(crate) fn bool_to_vec(val: bool) -> (r: Vec<u8>)
    ensures
        r@ == (if val {
            seq![0xc3u8]
        } else {
            seq![0xc2u8]
        }),
{
    let mut buf = rmp::encode::ByteBuf::new();
    let _ = rmp::encode::write_bool(&mut buf, val);
    buf.into_vec()
}

/// Relies on `rmp::encode::write_uint`: the narrowest unsigned form that
/// holds the value, as [`uint_bytes`] states it.
#[verifier::external_body]
pub(crate) fn uint_to_vec(val: u64) -> (r: Vec<u8>)
    ensures
        r@ == uint_bytes(val),
{
    let mut buf = rmp::encode::ByteBuf::new();
    let _ = rmp::encode::write_uint(&mut buf, val);
    buf.into_vec()
}

/// Relies on `rmp::encode::write_sint`: the narrowest signed form for
/// negative values and the unsigned forms otherwise, as [`sint_bytes`]
/// states it.
#[verifier::external_body]
pub(crate) fn sint_to_vec(val: i64) -> (r: Vec<u8>)
    ensures
        r@ == sint_bytes(val),
{
    let mut buf = rmp::encode::ByteBuf::new();
    let _ = rmp::encode::write_sint(&mut buf, val);
    buf.into_vec()
}

/// Relies on `rmp::encode::write_str_len`: the narrowest string length
/// prefix, as [`str_len_bytes`] states it.
#[verifier::external_body]
pub(crate) fn str_len_to_vec(len: u32) -> (r: Vec<u8>)
    ensures
        r@ == str_len_bytes(len),
{
    let mut buf = rmp::encode::ByteBuf::new();
    let _ = rmp::encode::write_str_len(&mut buf, len);
    buf.into_vec()
}

/// Relies on `rmp::encode::write_bin_len`: the narrowest binary length
/// prefix, as [`bin_len_bytes`] states it.
#[verifier::external_body]
pub(crate) fn bin_len_to_vec(len: u32) -> (r: Vec<u8>)
    ensures
        r@ == bin_len_bytes(len),
{
    let mut buf = rmp::encode::ByteBuf::new();
    let _ = rmp::encode::write_bin_len(&mut buf, len);
    buf.into_vec()
}

/// Relies on `rmp::encode::write_array_len`: the narrowest array length
/// prefix, as [`array_len_bytes`] states it.
#[verifier::external_body]
pub(crate) fn array_len_to_vec(len: u32) -> (r: Vec<u8>)
    ensures
        r@ == array_len_bytes(len),
{
    let mut buf = rmp::encode::ByteBuf::new();
    let _ = rmp::encode::write_array_len(&mut buf, len);
    buf.into_vec()
}

/// Relies on `rmp::encode::write_map_len`: the narrowest map length
/// prefix, as [`map_len_bytes`] states it.
#[verifier::external_body]
pub(crate) fn map_len_to_vec(len: u32) -> (r: Vec<u8>)
    ensures
        r@ == map_len_bytes(len),
{
    let mut buf = rmp::encode::ByteBuf::new();
    let _ = rmp::encode::write_map_len(&mut buf, len);
    buf.into_vec()
}

/// Relies on `rmp::encode::write_ext_meta`: a fixext marker for payload
/// lengths 1, 2, 4, 8 and 16 and the narrowest ext form otherwise, then
/// the type tag, as [`ext_meta_bytes`] states it.  (Its documentation
/// mentions a panic for negative tags; its body writes the tag's two's
/// complement unconditionally, with no panic.)
#[verifier::external_body]
pub(crate) fn ext_meta_to_vec(len: u32, ty: i8) -> (r: Vec<u8>)
    ensures
        r@ == ext_meta_bytes(len, ty),
{
    let mut buf = rmp::encode::ByteBuf::new();
    let _ = rmp::encode::write_ext_meta(&mut buf, len, ty);
    buf.into_vec()
}

/// The 32-bit float form, from the raw bits: marker `0xca`, then the bits
/// in big-endian order.
pub(crate) fn f32_to_vec(bits: u32) -> (r: Vec<u8>)
    ensures
        r@ == f32_bytes(bits),
{
    let mut v: Vec<u8> = Vec::new();
    v.push(0xca);
    v.push((bits >> 24) as u8);
    v.push((bits >> 16) as u8);
    v.push((bits >> 8) as u8);
    v.push(bits as u8);
    proof {
        assert(v@ =~= seq![0xcau8] + be32(bits));
    }
    v
}

/// The 64-bit float form, from the raw bits: marker `0xcb`, then the bits
/// in big-endian order.
pub(crate) fn f64_to_vec(bits: u64) -> (r: Vec<u8>)
    ensures
        r@ == f64_bytes(bits),
{
    let mut v: Vec<u8> = Vec::new();
    v.push(0xcb);
    v.push((bits >> 56) as u8);
    v.push((bits >> 48) as u8);
    v.push((bits >> 40) as u8);
    v.push((bits >> 32) as u8);
    v.push((bits >> 24) as u8);
    v.push((bits >> 16) as u8);
    v.push((bits >> 8) as u8);
    v.push(bits as u8);
    proof {
        assert(v@ =~= seq![0xcbu8] + be64(bits));
    }
    v
}

} // verus!
