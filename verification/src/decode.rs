//! A specification-level decoder, and the round-trip law.
//!
//! [`decode`] reads one MessagePack value off the front of a byte
//! sequence, as a mathematical function; nothing here runs.  Its purpose
//! is [`lemma_round_trip`]: decoding the encoding of any invertible tree
//! gives the tree back, so the encoder loses no information.

use vstd::prelude::*;

use crate::format::{
    array_len_bytes, be16, be32, be64, bin_len_bytes, encoding, encoding_pairs, encoding_seq, ext_meta_bytes,
    f32_bytes, f64_bytes, lemma_encoding_len_pos, map_len_bytes, sint_bytes, str_len_bytes,
    tag_byte, uint_bytes,
};
use crate::value::ValueModel;

verus! {

/// The unsigned value of two big-endian bytes.
pub open spec fn be16_val(b0: u8, b1: u8) -> int {
    b0 * 0x100 + b1
}

/// The unsigned value of four big-endian bytes.
pub open spec fn be32_val(b0: u8, b1: u8, b2: u8, b3: u8) -> int {
    ((b0 * 0x100 + b1) * 0x100 + b2) * 0x100 + b3
}

/// The unsigned value of eight big-endian bytes.
pub open spec fn be64_val(b: Seq<u8>) -> int
    recommends
        b.len() == 8,
{
    ((((((b[0] * 0x100 + b[1]) * 0x100 + b[2]) * 0x100 + b[3]) * 0x100 + b[4]) * 0x100 + b[5])
        * 0x100 + b[6]) * 0x100 + b[7]
}

/// The signed value of an unsigned reading of `width` bits' worth of
/// bytes: values at or above half the range are negative, two's
/// complement.
pub open spec fn signed_of(raw: int, half: int, full: int) -> int {
    if raw >= half {
        raw - full
    } else {
        raw
    }
}

/// Read one value off the front of `b`: the value and the bytes left
/// over, or nothing if `b` does not begin with a complete value.
pub open spec fn decode(b: Seq<u8>) -> Option<(ValueModel, Seq<u8>)>
    decreases b.len(), 0int,
{
    if b.len() == 0 {
        None
    } else {
        let m = b[0];
        let t = b.drop_first();
        if m < 0x80 {
            Some((ValueModel::U64(m as u64), t))
        } else if m < 0x90 {
            decode_map((m - 0x80) as int, t)
        } else if m < 0xa0 {
            decode_array((m - 0x90) as int, t)
        } else if m < 0xc0 {
            decode_payload_str((m - 0xa0) as int, t)
        } else if m == 0xc0 {
            Some((ValueModel::Nil, t))
        } else if m == 0xc1 {
            None
        } else if m == 0xc2 {
            Some((ValueModel::Boolean(false), t))
        } else if m == 0xc3 {
            Some((ValueModel::Boolean(true), t))
        } else if m == 0xc4 {
            if t.len() < 1 {
                None
            } else {
                decode_payload_bin(t[0] as int, t.drop_first())
            }
        } else if m == 0xc5 {
            if t.len() < 2 {
                None
            } else {
                decode_payload_bin(be16_val(t[0], t[1]), t.skip(2))
            }
        } else if m == 0xc6 {
            if t.len() < 4 {
                None
            } else {
                decode_payload_bin(be32_val(t[0], t[1], t[2], t[3]), t.skip(4))
            }
        } else if m == 0xc7 {
            if t.len() < 1 {
                None
            } else {
                decode_payload_ext(t[0] as int, t.drop_first())
            }
        } else if m == 0xc8 {
            if t.len() < 2 {
                None
            } else {
                decode_payload_ext(be16_val(t[0], t[1]), t.skip(2))
            }
        } else if m == 0xc9 {
            if t.len() < 4 {
                None
            } else {
                decode_payload_ext(be32_val(t[0], t[1], t[2], t[3]), t.skip(4))
            }
        } else if m == 0xca {
            if t.len() < 4 {
                None
            } else {
                Some((ValueModel::F32(be32_val(t[0], t[1], t[2], t[3]) as u32), t.skip(4)))
            }
        } else if m == 0xcb {
            if t.len() < 8 {
                None
            } else {
                Some((ValueModel::F64(be64_val(t.take(8)) as u64), t.skip(8)))
            }
        } else if m == 0xcc {
            if t.len() < 1 {
                None
            } else {
                Some((ValueModel::U64(t[0] as u64), t.drop_first()))
            }
        } else if m == 0xcd {
            if t.len() < 2 {
                None
            } else {
                Some((ValueModel::U64(be16_val(t[0], t[1]) as u64), t.skip(2)))
            }
        } else if m == 0xce {
            if t.len() < 4 {
                None
            } else {
                Some((ValueModel::U64(be32_val(t[0], t[1], t[2], t[3]) as u64), t.skip(4)))
            }
        } else if m == 0xcf {
            if t.len() < 8 {
                None
            } else {
                Some((ValueModel::U64(be64_val(t.take(8)) as u64), t.skip(8)))
            }
        } else if m == 0xd0 {
            if t.len() < 1 {
                None
            } else {
                Some((ValueModel::I64(signed_of(t[0] as int, 0x80, 0x100) as i64), t.drop_first()))
            }
        } else if m == 0xd1 {
            if t.len() < 2 {
                None
            } else {
                Some(
                    (
                        ValueModel::I64(
                            signed_of(be16_val(t[0], t[1]), 0x8000, 0x1_0000) as i64,
                        ),
                        t.skip(2),
                    ),
                )
            }
        } else if m == 0xd2 {
            if t.len() < 4 {
                None
            } else {
                Some(
                    (
                        ValueModel::I64(
                            signed_of(
                                be32_val(t[0], t[1], t[2], t[3]),
                                0x8000_0000,
                                0x1_0000_0000,
                            ) as i64,
                        ),
                        t.skip(4),
                    ),
                )
            }
        } else if m == 0xd3 {
            if t.len() < 8 {
                None
            } else {
                Some(
                    (
                        ValueModel::I64(
                            signed_of(
                                be64_val(t.take(8)),
                                0x8000_0000_0000_0000,
                                0x1_0000_0000_0000_0000,
                            ) as i64,
                        ),
                        t.skip(8),
                    ),
                )
            }
        } else if m == 0xd4 {
            decode_payload_fixext(1, t)
        } else if m == 0xd5 {
            decode_payload_fixext(2, t)
        } else if m == 0xd6 {
            decode_payload_fixext(4, t)
        } else if m == 0xd7 {
            decode_payload_fixext(8, t)
        } else if m == 0xd8 {
            decode_payload_fixext(16, t)
        } else if m == 0xd9 {
            if t.len() < 1 {
                None
            } else {
                decode_payload_str(t[0] as int, t.drop_first())
            }
        } else if m == 0xda {
            if t.len() < 2 {
                None
            } else {
                decode_payload_str(be16_val(t[0], t[1]), t.skip(2))
            }
        } else if m == 0xdb {
            if t.len() < 4 {
                None
            } else {
                decode_payload_str(be32_val(t[0], t[1], t[2], t[3]), t.skip(4))
            }
        } else if m == 0xdc {
            if t.len() < 2 {
                None
            } else {
                decode_array(be16_val(t[0], t[1]), t.skip(2))
            }
        } else if m == 0xdd {
            if t.len() < 4 {
                None
            } else {
                decode_array(be32_val(t[0], t[1], t[2], t[3]), t.skip(4))
            }
        } else if m == 0xde {
            if t.len() < 2 {
                None
            } else {
                decode_map(be16_val(t[0], t[1]), t.skip(2))
            }
        } else if m == 0xdf {
            if t.len() < 4 {
                None
            } else {
                decode_map(be32_val(t[0], t[1], t[2], t[3]), t.skip(4))
            }
        } else {
            Some((ValueModel::I64(signed_of(m as int, 0x80, 0x100) as i64), t))
        }
    }
}

/// Read a string payload of `len` bytes.
pub open spec fn decode_payload_str(len: int, b: Seq<u8>) -> Option<(ValueModel, Seq<u8>)> {
    if b.len() < len {
        None
    } else {
        Some((ValueModel::String(b.take(len)), b.skip(len)))
    }
}

/// Read a binary payload of `len` bytes.
pub open spec fn decode_payload_bin(len: int, b: Seq<u8>) -> Option<(ValueModel, Seq<u8>)> {
    if b.len() < len {
        None
    } else {
        Some((ValueModel::Binary(b.take(len)), b.skip(len)))
    }
}

/// Read an extension type tag, then a payload of `len` bytes.
pub open spec fn decode_payload_ext(len: int, b: Seq<u8>) -> Option<(ValueModel, Seq<u8>)> {
    if b.len() < len + 1 {
        None
    } else {
        Some(
            (
                ValueModel::Ext(signed_of(b[0] as int, 0x80, 0x100) as i8, b.skip(1).take(len)),
                b.skip(1).skip(len),
            ),
        )
    }
}

/// A fixext form: the payload length is implied by the marker.
pub open spec fn decode_payload_fixext(len: int, b: Seq<u8>) -> Option<(ValueModel, Seq<u8>)> {
    decode_payload_ext(len, b)
}

/// Read `n` values in sequence and wrap them as an array.
pub open spec fn decode_array(n: int, b: Seq<u8>) -> Option<(ValueModel, Seq<u8>)>
    decreases b.len(), n, 1int,
{
    match decode_seq(n, b) {
        Option::None => None,
        Option::Some((elems, rest)) => Some((ValueModel::Array(elems), rest)),
    }
}

/// Read `n` key-value pairs in sequence and wrap them as a map.
pub open spec fn decode_map(n: int, b: Seq<u8>) -> Option<(ValueModel, Seq<u8>)>
    decreases b.len(), n, 1int,
{
    match decode_pair_seq(n, b) {
        Option::None => None,
        Option::Some((pairs, rest)) => Some((ValueModel::Dict(pairs), rest)),
    }
}

/// Read `n` consecutive values.
pub open spec fn decode_seq(n: int, b: Seq<u8>) -> Option<(Seq<ValueModel>, Seq<u8>)>
    decreases b.len(), n, 0int,
{
    if n <= 0 {
        Some((Seq::empty(), b))
    } else {
        match decode(b) {
            Option::None => None,
            Option::Some((v, rest)) => if rest.len() >= b.len() {
                None
            } else {
                match decode_seq(n - 1, rest) {
                    Option::None => None,
                    Option::Some((vs, rest2)) => Some((seq![v] + vs, rest2)),
                }
            },
        }
    }
}

/// Read `n` consecutive key-value pairs.
pub open spec fn decode_pair_seq(n: int, b: Seq<u8>) -> Option<
    (Seq<(ValueModel, ValueModel)>, Seq<u8>),
>
    decreases b.len(), n, 0int,
{
    if n <= 0 {
        Some((Seq::empty(), b))
    } else {
        match decode(b) {
            Option::None => None,
            Option::Some((k, rest)) => if rest.len() >= b.len() {
                None
            } else {
                match decode(rest) {
                    Option::None => None,
                    Option::Some((v, rest2)) => if rest2.len() >= rest.len() {
                        None
                    } else {
                        match decode_pair_seq(n - 1, rest2) {
                            Option::None => None,
                            Option::Some((kvs, rest3)) => Some((seq![(k, v)] + kvs, rest3)),
                        }
                    },
                }
            },
        }
    }
}

/// The trees whose encoding decodes back to the very same tree: every
/// container and payload length fits the 32-bit prefix, and every signed
/// node is negative.  (A non-negative signed node takes the same unsigned
/// wire form as the matching unsigned node, so a decoder returns it as an
/// unsigned node: the wire format does not record that distinction.)
pub open spec fn invertible(m: ValueModel) -> bool
    decreases m,
{
    match m {
        ValueModel::Nil => true,
        ValueModel::Boolean(_) => true,
        ValueModel::U64(_) => true,
        ValueModel::I64(v) => v < 0,
        ValueModel::F32(_) => true,
        ValueModel::F64(_) => true,
        ValueModel::String(s) => s.len() < 0x1_0000_0000,
        ValueModel::Binary(b) => b.len() < 0x1_0000_0000,
        ValueModel::Array(elems) => elems.len() < 0x1_0000_0000 && invertible_seq(elems),
        ValueModel::Dict(pairs) => pairs.len() < 0x1_0000_0000 && invertible_pairs(pairs),
        ValueModel::Ext(_, data) => data.len() < 0x1_0000_0000,
    }
}

/// Every tree of the sequence is invertible.
pub open spec fn invertible_seq(elems: Seq<ValueModel>) -> bool
    decreases elems,
{
    if elems.len() == 0 {
        true
    } else {
        invertible(elems[0]) && invertible_seq(elems.drop_first())
    }
}

/// Every key and value of the sequence is invertible.
pub open spec fn invertible_pairs(pairs: Seq<(ValueModel, ValueModel)>) -> bool
    decreases pairs,
{
    if pairs.len() == 0 {
        true
    } else {
        invertible(pairs[0].0) && invertible(pairs[0].1) && invertible_pairs(pairs.drop_first())
    }
}

/// Two big-endian bytes read back as the value they were made from.
proof fn lemma_be16_round(v: u16)
    ensures
        be16_val(be16(v)[0], be16(v)[1]) == v,
{
    assert(((v >> 8) as u8) as u32 * 0x100 + ((v as u8) as u32) == v as u32) by (bit_vector);
}

/// Four big-endian bytes read back as the value they were made from.
proof fn lemma_be32_round(v: u32)
    ensures
        be32_val(be32(v)[0], be32(v)[1], be32(v)[2], be32(v)[3]) == v,
{
    assert(((v >> 24) as u8) as u64 * 0x100_0000 + ((v >> 16) as u8) as u64 * 0x1_0000 + ((v
        >> 8) as u8) as u64 * 0x100 + (v as u8) as u64 == v as u64) by (bit_vector);
}

/// Eight big-endian bytes read back as the value they were made from.
proof fn lemma_be64_round(v: u64)
    ensures
        be64_val(be64(v)) == v,
{
    assert(((v >> 56) as u8) as u64 * 0x100_0000_0000_0000 + ((v >> 48) as u8) as u64
        * 0x1_0000_0000_0000 + ((v >> 40) as u8) as u64 * 0x100_0000_0000 + ((v
        >> 32) as u8) as u64 * 0x1_0000_0000 + ((v >> 24) as u8) as u64 * 0x100_0000 + ((v
        >> 16) as u8) as u64 * 0x1_0000 + ((v >> 8) as u8) as u64 * 0x100 + (v as u8) as u64
        == v) by (bit_vector);
}

/// A fix-form marker with an embedded small count is the base marker plus
/// the count.
proof fn lemma_fix_marker(base: u8, l: u8)
    requires
        base == 0x80 || base == 0x90 || base == 0xa0,
        l < 32,
        base == 0x80 ==> l < 16,
        base == 0x90 ==> l < 16,
    ensures
        (base | l) == base + l,
{
    assert(l < 16 && (base == 0x80 || base == 0x90) ==> (base | l) == base + l) by (bit_vector);
    assert(l < 32 && base == 0xa0 ==> (base | l) == base + l) by (bit_vector);
}

/// Decoding the minimal unsigned form gives the value back.
proof fn lemma_rt_uint(v: u64, rest: Seq<u8>)
    ensures
        decode(uint_bytes(v) + rest) == Some((ValueModel::U64(v), rest)),
{
    let b = uint_bytes(v) + rest;
    if v < 128 {
        assert(b[0] == v as u8);
        assert(b.drop_first() =~= rest);
    } else if v < 256 {
        assert(b[0] == 0xcc);
        let t = b.drop_first();
        assert(t =~= seq![(v as u8)] + rest);
        assert(t[0] == v as u8);
        assert(t.drop_first() =~= rest);
    } else if v < 65536 {
        let e = be16(v as u16);
        assert(b[0] == 0xcd);
        let t = b.drop_first();
        assert(t =~= e + rest);
        assert(t[0] == e[0] && t[1] == e[1]);
        lemma_be16_round(v as u16);
        assert(t.skip(2) =~= rest);
    } else if v < 0x1_0000_0000 {
        let e = be32(v as u32);
        assert(b[0] == 0xce);
        let t = b.drop_first();
        assert(t =~= e + rest);
        assert(t[0] == e[0] && t[1] == e[1] && t[2] == e[2] && t[3] == e[3]);
        lemma_be32_round(v as u32);
        assert(t.skip(4) =~= rest);
    } else {
        let e = be64(v);
        assert(b[0] == 0xcf);
        let t = b.drop_first();
        assert(t =~= e + rest);
        assert(t.take(8) =~= e);
        lemma_be64_round(v);
        assert(t.skip(8) =~= rest);
    }
}

/// Decoding the minimal signed form of a negative value gives it back.
proof fn lemma_rt_sint(v: i64, rest: Seq<u8>)
    requires
        v < 0,
    ensures
        decode(sint_bytes(v) + rest) == Some((ValueModel::I64(v), rest)),
{
    let b = sint_bytes(v) + rest;
    if -32 <= v {
        assert(b[0] == (v + 0x100) as u8);
        assert(b[0] >= 0xe0);
        assert(b.drop_first() =~= rest);
    } else if -128 <= v {
        assert(b[0] == 0xd0);
        let t = b.drop_first();
        assert(t =~= seq![((v + 0x100) as u8)] + rest);
        assert(t[0] == (v + 0x100) as u8);
        assert(t.drop_first() =~= rest);
    } else if -32768 <= v {
        let e = be16((v + 0x1_0000) as u16);
        assert(b[0] == 0xd1);
        let t = b.drop_first();
        assert(t =~= e + rest);
        assert(t[0] == e[0] && t[1] == e[1]);
        lemma_be16_round((v + 0x1_0000) as u16);
        assert(t.skip(2) =~= rest);
    } else if -0x8000_0000 <= v {
        let e = be32((v + 0x1_0000_0000) as u32);
        assert(b[0] == 0xd2);
        let t = b.drop_first();
        assert(t =~= e + rest);
        assert(t[0] == e[0] && t[1] == e[1] && t[2] == e[2] && t[3] == e[3]);
        lemma_be32_round((v + 0x1_0000_0000) as u32);
        assert(t.skip(4) =~= rest);
    } else {
        let e = be64((v + 0x1_0000_0000_0000_0000) as u64);
        assert(b[0] == 0xd3);
        let t = b.drop_first();
        assert(t =~= e + rest);
        assert(t.take(8) =~= e);
        lemma_be64_round((v + 0x1_0000_0000_0000_0000) as u64);
        assert(t.skip(8) =~= rest);
    }
}

/// Decoding the 32-bit float form gives the bit pattern back.
proof fn lemma_rt_f32(bits: u32, rest: Seq<u8>)
    ensures
        decode(f32_bytes(bits) + rest) == Some((ValueModel::F32(bits), rest)),
{
    let e = be32(bits);
    let b = f32_bytes(bits) + rest;
    assert(b[0] == 0xca);
    let t = b.drop_first();
    assert(t =~= e + rest);
    assert(t[0] == e[0] && t[1] == e[1] && t[2] == e[2] && t[3] == e[3]);
    lemma_be32_round(bits);
    assert(t.skip(4) =~= rest);
}

/// Decoding the 64-bit float form gives the bit pattern back.
proof fn lemma_rt_f64(bits: u64, rest: Seq<u8>)
    ensures
        decode(f64_bytes(bits) + rest) == Some((ValueModel::F64(bits), rest)),
{
    let e = be64(bits);
    let b = f64_bytes(bits) + rest;
    assert(b[0] == 0xcb);
    let t = b.drop_first();
    assert(t =~= e + rest);
    assert(t.take(8) =~= e);
    lemma_be64_round(bits);
    assert(t.skip(8) =~= rest);
}

/// Decoding the string form gives the payload back, when its length fits
/// the 32-bit prefix.
proof fn lemma_rt_str(s: Seq<u8>, rest: Seq<u8>)
    requires
        s.len() < 0x1_0000_0000,
    ensures
        decode(encoding(ValueModel::String(s)) + rest) == Some((ValueModel::String(s), rest)),
{
    let l32 = s.len() as u32;
    assert(l32 == s.len());
    let b = (str_len_bytes(l32) + s) + rest;
    assert(encoding(ValueModel::String(s)) + rest =~= b);
    if s.len() < 32 {
        lemma_fix_marker(0xa0, l32 as u8);
        assert(b[0] == 0xa0 + l32 as u8);
        assert(0xa0 <= b[0] < 0xc0);
        let t = b.drop_first();
        assert(t =~= s + rest);
        assert(t.take(s.len() as int) =~= s);
        assert(t.skip(s.len() as int) =~= rest);
    } else if s.len() < 256 {
        assert(b[0] == 0xd9);
        let t = b.drop_first();
        assert(t =~= seq![(l32 as u8)] + (s + rest));
        assert(t[0] == l32 as u8);
        let u = t.drop_first();
        assert(u =~= s + rest);
        assert(u.take(s.len() as int) =~= s);
        assert(u.skip(s.len() as int) =~= rest);
    } else if s.len() < 65536 {
        let e = be16(l32 as u16);
        assert(b[0] == 0xda);
        let t = b.drop_first();
        assert(t =~= e + (s + rest));
        assert(t[0] == e[0] && t[1] == e[1]);
        lemma_be16_round(l32 as u16);
        let u = t.skip(2);
        assert(u =~= s + rest);
        assert(u.take(s.len() as int) =~= s);
        assert(u.skip(s.len() as int) =~= rest);
    } else {
        let e = be32(l32);
        assert(b[0] == 0xdb);
        let t = b.drop_first();
        assert(t =~= e + (s + rest));
        assert(t[0] == e[0] && t[1] == e[1] && t[2] == e[2] && t[3] == e[3]);
        lemma_be32_round(l32);
        let u = t.skip(4);
        assert(u =~= s + rest);
        assert(u.take(s.len() as int) =~= s);
        assert(u.skip(s.len() as int) =~= rest);
    }
}

/// Decoding the binary form gives the payload back, when its length fits
/// the 32-bit prefix.
proof fn lemma_rt_bin(p: Seq<u8>, rest: Seq<u8>)
    requires
        p.len() < 0x1_0000_0000,
    ensures
        decode(encoding(ValueModel::Binary(p)) + rest) == Some((ValueModel::Binary(p), rest)),
{
    let l32 = p.len() as u32;
    assert(l32 == p.len());
    let b = (bin_len_bytes(l32) + p) + rest;
    assert(encoding(ValueModel::Binary(p)) + rest =~= b);
    if p.len() < 256 {
        assert(b[0] == 0xc4);
        let t = b.drop_first();
        assert(t =~= seq![(l32 as u8)] + (p + rest));
        assert(t[0] == l32 as u8);
        let u = t.drop_first();
        assert(u =~= p + rest);
        assert(u.take(p.len() as int) =~= p);
        assert(u.skip(p.len() as int) =~= rest);
    } else if p.len() < 65536 {
        let e = be16(l32 as u16);
        assert(b[0] == 0xc5);
        let t = b.drop_first();
        assert(t =~= e + (p + rest));
        assert(t[0] == e[0] && t[1] == e[1]);
        lemma_be16_round(l32 as u16);
        let u = t.skip(2);
        assert(u =~= p + rest);
        assert(u.take(p.len() as int) =~= p);
        assert(u.skip(p.len() as int) =~= rest);
    } else {
        let e = be32(l32);
        assert(b[0] == 0xc6);
        let t = b.drop_first();
        assert(t =~= e + (p + rest));
        assert(t[0] == e[0] && t[1] == e[1] && t[2] == e[2] && t[3] == e[3]);
        lemma_be32_round(l32);
        let u = t.skip(4);
        assert(u =~= p + rest);
        assert(u.take(p.len() as int) =~= p);
        assert(u.skip(p.len() as int) =~= rest);
    }
}

/// The tag byte and a payload decode back to the extension node.
proof fn lemma_rt_ext_payload(ty: i8, data: Seq<u8>, rest: Seq<u8>)
    ensures
        decode_payload_ext(data.len() as int, seq![tag_byte(ty)] + data + rest) == Some(
            (ValueModel::Ext(ty, data), rest),
        ),
{
    let u = seq![tag_byte(ty)] + data + rest;
    assert(u[0] == tag_byte(ty));
    assert(signed_of(tag_byte(ty) as int, 0x80, 0x100) == ty);
    assert(u.skip(1) =~= data + rest);
    assert(u.skip(1).take(data.len() as int) =~= data);
    assert(u.skip(1).skip(data.len() as int) =~= rest);
}

/// Decoding the extension form gives the tag and payload back, when the
/// payload length fits the 32-bit prefix.
proof fn lemma_rt_ext(ty: i8, data: Seq<u8>, rest: Seq<u8>)
    requires
        data.len() < 0x1_0000_0000,
    ensures
        decode(encoding(ValueModel::Ext(ty, data)) + rest) == Some(
            (ValueModel::Ext(ty, data), rest),
        ),
{
    let l = data.len() as int;
    let l32 = data.len() as u32;
    assert(l32 == data.len());
    let b = (ext_meta_bytes(l32, ty) + data) + rest;
    assert(encoding(ValueModel::Ext(ty, data)) + rest =~= b);
    lemma_rt_ext_payload(ty, data, rest);
    if l == 1 || l == 2 || l == 4 || l == 8 || l == 16 {
        assert(b[0] == ext_meta_bytes(l32, ty)[0]);
        let t = b.drop_first();
        assert(t =~= seq![tag_byte(ty)] + data + rest);
    } else if l < 256 {
        assert(b[0] == 0xc7);
        let t = b.drop_first();
        assert(t =~= seq![(l32 as u8)] + (seq![tag_byte(ty)] + data + rest));
        assert(t[0] == l32 as u8);
        assert(t.drop_first() =~= seq![tag_byte(ty)] + data + rest);
    } else if l < 65536 {
        let e = be16(l32 as u16);
        assert(b[0] == 0xc8);
        let t = b.drop_first();
        assert(t =~= e + (seq![tag_byte(ty)] + data + rest));
        assert(t[0] == e[0] && t[1] == e[1]);
        lemma_be16_round(l32 as u16);
        assert(t.skip(2) =~= seq![tag_byte(ty)] + data + rest);
    } else {
        let e = be32(l32);
        assert(b[0] == 0xc9);
        let t = b.drop_first();
        assert(t =~= e + (seq![tag_byte(ty)] + data + rest));
        assert(t[0] == e[0] && t[1] == e[1] && t[2] == e[2] && t[3] == e[3]);
        lemma_be32_round(l32);
        assert(t.skip(4) =~= seq![tag_byte(ty)] + data + rest);
    }
}

/// Round trip, with trailing bytes: decoding a byte sequence that begins
/// with the encoding of an invertible tree yields exactly that tree and
/// leaves exactly the trailing bytes.
pub proof fn lemma_round_trip_prefix(m: ValueModel, rest: Seq<u8>)
    requires
        invertible(m),
    ensures
        decode(encoding(m) + rest) == Some((m, rest)),
    decreases m,
{
    match m {
        ValueModel::Nil => {
            let b = encoding(m) + rest;
            assert(b[0] == 0xc0);
            assert(b.drop_first() =~= rest);
        },
        ValueModel::Boolean(v) => {
            let b = encoding(m) + rest;
            assert(b.drop_first() =~= rest);
            if v {
                assert(b[0] == 0xc3);
            } else {
                assert(b[0] == 0xc2);
            }
        },
        ValueModel::U64(v) => {
            lemma_rt_uint(v, rest);
        },
        ValueModel::I64(v) => {
            lemma_rt_sint(v, rest);
        },
        ValueModel::F32(bits) => {
            lemma_rt_f32(bits, rest);
        },
        ValueModel::F64(bits) => {
            lemma_rt_f64(bits, rest);
        },
        ValueModel::String(s) => {
            lemma_rt_str(s, rest);
        },
        ValueModel::Binary(p) => {
            lemma_rt_bin(p, rest);
        },
        ValueModel::Ext(ty, data) => {
            lemma_rt_ext(ty, data, rest);
        },
        ValueModel::Array(elems) => {
            let l32 = elems.len() as u32;
            assert(l32 == elems.len());
            let b = (array_len_bytes(l32) + encoding_seq(elems)) + rest;
            assert(encoding(m) + rest =~= b);
            lemma_rt_elems(elems, rest);
            if elems.len() < 16 {
                lemma_fix_marker(0x90, l32 as u8);
                assert(b[0] == 0x90 + l32 as u8);
                let t = b.drop_first();
                assert(t =~= encoding_seq(elems) + rest);
            } else if elems.len() < 65536 {
                let e = be16(l32 as u16);
                assert(b[0] == 0xdc);
                let t = b.drop_first();
                assert(t =~= e + (encoding_seq(elems) + rest));
                assert(t[0] == e[0] && t[1] == e[1]);
                lemma_be16_round(l32 as u16);
                assert(t.skip(2) =~= encoding_seq(elems) + rest);
            } else {
                let e = be32(l32);
                assert(b[0] == 0xdd);
                let t = b.drop_first();
                assert(t =~= e + (encoding_seq(elems) + rest));
                assert(t[0] == e[0] && t[1] == e[1] && t[2] == e[2] && t[3] == e[3]);
                lemma_be32_round(l32);
                assert(t.skip(4) =~= encoding_seq(elems) + rest);
            }
        },
        ValueModel::Dict(pairs) => {
            let l32 = pairs.len() as u32;
            assert(l32 == pairs.len());
            let b = (map_len_bytes(l32) + encoding_pairs(pairs)) + rest;
            assert(encoding(m) + rest =~= b);
            lemma_rt_kvs(pairs, rest);
            if pairs.len() < 16 {
                lemma_fix_marker(0x80, l32 as u8);
                assert(b[0] == 0x80 + l32 as u8);
                let t = b.drop_first();
                assert(t =~= encoding_pairs(pairs) + rest);
            } else if pairs.len() < 65536 {
                let e = be16(l32 as u16);
                assert(b[0] == 0xde);
                let t = b.drop_first();
                assert(t =~= e + (encoding_pairs(pairs) + rest));
                assert(t[0] == e[0] && t[1] == e[1]);
                lemma_be16_round(l32 as u16);
                assert(t.skip(2) =~= encoding_pairs(pairs) + rest);
            } else {
                let e = be32(l32);
                assert(b[0] == 0xdf);
                let t = b.drop_first();
                assert(t =~= e + (encoding_pairs(pairs) + rest));
                assert(t[0] == e[0] && t[1] == e[1] && t[2] == e[2] && t[3] == e[3]);
                lemma_be32_round(l32);
                assert(t.skip(4) =~= encoding_pairs(pairs) + rest);
            }
        },
    }
}

/// Reading back, one by one, the concatenated encodings of a sequence of
/// invertible trees gives the sequence back.
proof fn lemma_rt_elems(elems: Seq<ValueModel>, rest: Seq<u8>)
    requires
        invertible_seq(elems),
    ensures
        decode_seq(elems.len() as int, encoding_seq(elems) + rest) == Some((elems, rest)),
    decreases elems,
{
    if elems.len() == 0 {
        assert(encoding_seq(elems) + rest =~= rest);
        assert(Seq::<ValueModel>::empty() =~= elems);
    } else {
        let hd = elems[0];
        let tl = elems.drop_first();
        let rest1 = encoding_seq(tl) + rest;
        let b = encoding_seq(elems) + rest;
        assert(b =~= encoding(hd) + rest1);
        lemma_round_trip_prefix(hd, rest1);
        lemma_encoding_len_pos(hd);
        assert(rest1.len() < b.len());
        lemma_rt_elems(tl, rest);
        assert(seq![hd] + tl =~= elems);
    }
}

/// Reading back, key then value, the concatenated encodings of a sequence
/// of invertible pairs gives the sequence back.
proof fn lemma_rt_kvs(pairs: Seq<(ValueModel, ValueModel)>, rest: Seq<u8>)
    requires
        invertible_pairs(pairs),
    ensures
        decode_pair_seq(pairs.len() as int, encoding_pairs(pairs) + rest) == Some((pairs, rest)),
    decreases pairs,
{
    if pairs.len() == 0 {
        assert(encoding_pairs(pairs) + rest =~= rest);
        assert(Seq::<(ValueModel, ValueModel)>::empty() =~= pairs);
    } else {
        let k = pairs[0].0;
        let v = pairs[0].1;
        let tl = pairs.drop_first();
        let restv = encoding_pairs(tl) + rest;
        let rest1 = encoding(v) + restv;
        let b = encoding_pairs(pairs) + rest;
        assert(b =~= encoding(k) + rest1);
        lemma_round_trip_prefix(k, rest1);
        lemma_encoding_len_pos(k);
        assert(rest1.len() < b.len());
        lemma_round_trip_prefix(v, restv);
        lemma_encoding_len_pos(v);
        assert(restv.len() < rest1.len());
        lemma_rt_kvs(tl, rest);
        assert(seq![(k, v)] + tl =~= pairs);
    }
}

/// The round-trip law: decoding the encoding of any invertible tree gives
/// exactly that tree, with no bytes left over.  Tagging is preserved: the
/// two float widths, and string against binary, decode back to the
/// variants they were encoded from.
pub proof fn lemma_round_trip(m: ValueModel)
    requires
        invertible(m),
    ensures
        decode(encoding(m)) == Some((m, Seq::<u8>::empty())),
{
    lemma_round_trip_prefix(m, Seq::empty());
    assert(encoding(m) + Seq::<u8>::empty() =~= encoding(m));
}

} // verus!
