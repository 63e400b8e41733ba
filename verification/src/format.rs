//! The MessagePack wire format, as specification functions.
//!
//! [`encoding`] gives, for every value tree, the exact byte sequence that
//! the encoder must produce.  Scalars use the narrowest marker that
//! represents the value exactly; container length prefixes carry the length
//! truncated to 32 bits, which is the boundary the format imposes.

use vstd::prelude::*;

use crate::value::ValueModel;

verus! {

/// The two bytes of a 16-bit value in big-endian order.
pub open spec fn be16(v: u16) -> Seq<u8> {
    seq![(v >> 8) as u8, v as u8]
}

/// The four bytes of a 32-bit value in big-endian order.
pub open spec fn be32(v: u32) -> Seq<u8> {
    seq![(v >> 24) as u8, (v >> 16) as u8, (v >> 8) as u8, v as u8]
}

/// The eight bytes of a 64-bit value in big-endian order.
pub open spec fn be64(v: u64) -> Seq<u8> {
    seq![
        (v >> 56) as u8,
        (v >> 48) as u8,
        (v >> 40) as u8,
        (v >> 32) as u8,
        (v >> 24) as u8,
        (v >> 16) as u8,
        (v >> 8) as u8,
        v as u8,
    ]
}

/// The minimal encoding of an unsigned integer: positive fixint below 128,
/// then the narrowest of the uint8/16/32/64 markers that fits.
pub open spec fn uint_bytes(v: u64) -> Seq<u8> {
    if v < 128 {
        seq![v as u8]
    } else if v < 256 {
        seq![0xccu8, v as u8]
    } else if v < 65536 {
        seq![0xcdu8] + be16(v as u16)
    } else if v < 0x1_0000_0000 {
        seq![0xceu8] + be32(v as u32)
    } else {
        seq![0xcfu8] + be64(v)
    }
}

/// The minimal encoding of a signed integer: negative values use negative
/// fixint or the narrowest int8/16/32/64 marker; non-negative values use
/// the unsigned forms of [`uint_bytes`].  A negative payload is its two's
/// complement, written here as the value plus the matching power of two.
pub open spec fn sint_bytes(v: i64) -> Seq<u8> {
    if -32 <= v && v < 0 {
        seq![(v + 0x100) as u8]
    } else if -128 <= v && v < -32 {
        seq![0xd0u8, (v + 0x100) as u8]
    } else if -32768 <= v && v < -128 {
        seq![0xd1u8] + be16((v + 0x1_0000) as u16)
    } else if -0x8000_0000 <= v && v < -32768 {
        seq![0xd2u8] + be32((v + 0x1_0000_0000) as u32)
    } else if v < -0x8000_0000 {
        seq![0xd3u8] + be64((v + 0x1_0000_0000_0000_0000) as u64)
    } else {
        uint_bytes(v as u64)
    }
}

/// The encoding of a 32-bit float given as its IEEE-754 bit pattern:
/// the f32 marker followed by the bits in big-endian order.
pub open spec fn f32_bytes(bits: u32) -> Seq<u8> {
    seq![0xcau8] + be32(bits)
}

/// The encoding of a 64-bit float given as its IEEE-754 bit pattern:
/// the f64 marker followed by the bits in big-endian order.
pub open spec fn f64_bytes(bits: u64) -> Seq<u8> {
    seq![0xcbu8] + be64(bits)
}

/// The minimal string length prefix: fixstr below 32, then the narrowest
/// of the str8/16/32 markers that fits.
pub open spec fn str_len_bytes(len: u32) -> Seq<u8> {
    if len < 32 {
        seq![0xa0u8 | len as u8]
    } else if len < 256 {
        seq![0xd9u8, len as u8]
    } else if len < 65536 {
        seq![0xdau8] + be16(len as u16)
    } else {
        seq![0xdbu8] + be32(len)
    }
}

/// The minimal binary length prefix: the narrowest of the bin8/16/32
/// markers that fits.
pub open spec fn bin_len_bytes(len: u32) -> Seq<u8> {
    if len < 256 {
        seq![0xc4u8, len as u8]
    } else if len < 65536 {
        seq![0xc5u8] + be16(len as u16)
    } else {
        seq![0xc6u8] + be32(len)
    }
}

/// The minimal array length prefix: fixarray below 16, then array16 or
/// array32.
pub open spec fn array_len_bytes(len: u32) -> Seq<u8> {
    if len < 16 {
        seq![0x90u8 | len as u8]
    } else if len < 65536 {
        seq![0xdcu8] + be16(len as u16)
    } else {
        seq![0xddu8] + be32(len)
    }
}

/// The minimal map length prefix: fixmap below 16, then map16 or map32.
pub open spec fn map_len_bytes(len: u32) -> Seq<u8> {
    if len < 16 {
        seq![0x80u8 | len as u8]
    } else if len < 65536 {
        seq![0xdeu8] + be16(len as u16)
    } else {
        seq![0xdfu8] + be32(len)
    }
}

/// The wire byte of a signed extension type tag: its two's complement,
/// written here as the value plus 256 when negative.
pub open spec fn tag_byte(ty: i8) -> u8 {
    if ty < 0 {
        (ty + 0x100) as u8
    } else {
        ty as u8
    }
}

/// The extension metadata: a fixext marker for payload lengths 1, 2, 4, 8
/// and 16, otherwise the narrowest of the ext8/16/32 markers, with the
/// length where the marker does not imply it, then the signed type tag.
pub open spec fn ext_meta_bytes(len: u32, ty: i8) -> Seq<u8> {
    if len == 1 {
        seq![0xd4u8, tag_byte(ty)]
    } else if len == 2 {
        seq![0xd5u8, tag_byte(ty)]
    } else if len == 4 {
        seq![0xd6u8, tag_byte(ty)]
    } else if len == 8 {
        seq![0xd7u8, tag_byte(ty)]
    } else if len == 16 {
        seq![0xd8u8, tag_byte(ty)]
    } else if len < 256 {
        seq![0xc7u8, len as u8, tag_byte(ty)]
    } else if len < 65536 {
        seq![0xc8u8] + be16(len as u16) + seq![tag_byte(ty)]
    } else {
        seq![0xc9u8] + be32(len) + seq![tag_byte(ty)]
    }
}

/// The exact MessagePack encoding of a value tree: one marker (and, where
/// needed, a length or the scalar payload) per node, children depth-first
/// and left to right, a key immediately before its value within each map
/// pair.  Container and payload lengths are truncated to 32 bits in the
/// prefix, while the children or payload bytes follow in full.
pub open spec fn encoding(m: ValueModel) -> Seq<u8>
    decreases m,
{
    match m {
        ValueModel::Nil => seq![0xc0u8],
        ValueModel::Boolean(b) => if b {
            seq![0xc3u8]
        } else {
            seq![0xc2u8]
        },
        ValueModel::U64(v) => uint_bytes(v),
        ValueModel::I64(v) => sint_bytes(v),
        ValueModel::F32(bits) => f32_bytes(bits),
        ValueModel::F64(bits) => f64_bytes(bits),
        ValueModel::String(s) => str_len_bytes(s.len() as u32) + s,
        ValueModel::Binary(b) => bin_len_bytes(b.len() as u32) + b,
        ValueModel::Array(elems) => array_len_bytes(elems.len() as u32) + encoding_seq(elems),
        ValueModel::Dict(pairs) => map_len_bytes(pairs.len() as u32) + encoding_pairs(pairs),
        ValueModel::Ext(ty, data) => ext_meta_bytes(data.len() as u32, ty) + data,
    }
}

/// The concatenation of the encodings of a sequence of trees, in order.
pub open spec fn encoding_seq(elems: Seq<ValueModel>) -> Seq<u8>
    decreases elems,
{
    if elems.len() == 0 {
        Seq::empty()
    } else {
        encoding(elems[0]) + encoding_seq(elems.drop_first())
    }
}

/// The concatenation of the encodings of a sequence of key-value pairs:
/// for each pair the key's encoding, then the value's, pairs in order.
pub open spec fn encoding_pairs(pairs: Seq<(ValueModel, ValueModel)>) -> Seq<u8>
    decreases pairs,
{
    if pairs.len() == 0 {
        Seq::empty()
    } else {
        encoding(pairs[0].0) + encoding(pairs[0].1) + encoding_pairs(pairs.drop_first())
    }
}

/// Every encoding is at least one byte long: each variant begins with a
/// marker byte.
pub proof fn lemma_encoding_len_pos(m: ValueModel)
    ensures
        encoding(m).len() >= 1,
{
}

/// Appending a tree to a sequence appends its encoding.
pub proof fn lemma_encoding_seq_push(elems: Seq<ValueModel>, x: ValueModel)
    ensures
        encoding_seq(elems.push(x)) == encoding_seq(elems) + encoding(x),
    decreases elems,
{
    if elems.len() == 0 {
        assert(elems.push(x)[0] == x);
        assert(elems.push(x).drop_first() =~= Seq::<ValueModel>::empty());
        assert(encoding_seq(elems.push(x)) == encoding(x) + encoding_seq(
            Seq::<ValueModel>::empty(),
        ));
        assert(encoding(x) + Seq::<u8>::empty() =~= encoding(x));
        assert(Seq::<u8>::empty() + encoding(x) =~= encoding(x));
        assert(encoding_seq(elems.push(x)) == encoding_seq(elems) + encoding(x));
    } else {
        lemma_encoding_seq_push(elems.drop_first(), x);
        assert(elems.push(x).drop_first() =~= elems.drop_first().push(x));
        assert(elems.push(x)[0] == elems[0]);
        assert(encoding_seq(elems.push(x)) == encoding(elems[0]) + encoding_seq(
            elems.drop_first().push(x),
        ));
        assert(encoding_seq(elems) == encoding(elems[0]) + encoding_seq(elems.drop_first()));
        assert((encoding(elems[0]) + encoding_seq(elems.drop_first())) + encoding(x) =~= encoding(
            elems[0],
        ) + (encoding_seq(elems.drop_first()) + encoding(x)));
        assert(encoding_seq(elems.push(x)) == encoding_seq(elems) + encoding(x));
    }
}

/// Appending a pair to a sequence appends the key's encoding, then the
/// value's.
pub proof fn lemma_encoding_pairs_push(pairs: Seq<(ValueModel, ValueModel)>, x: (ValueModel, ValueModel))
    ensures
        encoding_pairs(pairs.push(x)) == encoding_pairs(pairs) + encoding(x.0) + encoding(x.1),
    decreases pairs,
{
    if pairs.len() == 0 {
        assert(pairs.push(x)[0] == x);
        assert(pairs.push(x).drop_first() =~= Seq::<(ValueModel, ValueModel)>::empty());
        assert(encoding_pairs(pairs.push(x)) == encoding(x.0) + encoding(x.1) + encoding_pairs(
            Seq::<(ValueModel, ValueModel)>::empty(),
        ));
        assert(encoding(x.0) + encoding(x.1) + Seq::<u8>::empty() =~= encoding(x.0) + encoding(
            x.1,
        ));
        assert(Seq::<u8>::empty() + encoding(x.0) + encoding(x.1) =~= encoding(x.0) + encoding(
            x.1,
        ));
        assert(encoding_pairs(pairs.push(x)) == encoding_pairs(pairs) + encoding(x.0) + encoding(
            x.1,
        ));
    } else {
        lemma_encoding_pairs_push(pairs.drop_first(), x);
        assert(pairs.push(x).drop_first() =~= pairs.drop_first().push(x));
        assert(pairs.push(x)[0] == pairs[0]);
        assert(encoding_pairs(pairs.push(x)) == encoding(pairs[0].0) + encoding(pairs[0].1)
            + encoding_pairs(pairs.drop_first().push(x)));
        assert(encoding_pairs(pairs) == encoding(pairs[0].0) + encoding(pairs[0].1)
            + encoding_pairs(pairs.drop_first()));
        assert((encoding(pairs[0].0) + encoding(pairs[0].1) + encoding_pairs(pairs.drop_first()))
            + encoding(x.0) + encoding(x.1) =~= encoding(pairs[0].0) + encoding(pairs[0].1) + (
        encoding_pairs(pairs.drop_first()) + encoding(x.0) + encoding(x.1)));
        assert(encoding_pairs(pairs.push(x)) == encoding_pairs(pairs) + encoding(x.0) + encoding(x.1));
    }
}

/// The encoding of a sequence splits at any element: what comes before it,
/// its own encoding, and what comes after.
pub proof fn lemma_encoding_seq_decompose(elems: Seq<ValueModel>, i: int)
    requires
        0 <= i < elems.len(),
    ensures
        encoding_seq(elems) == encoding_seq(elems.take(i)) + encoding(elems[i]) + encoding_seq(
            elems.skip(i + 1),
        ),
    decreases i,
{
    if i == 0 {
        assert(elems.take(0) =~= Seq::<ValueModel>::empty());
        assert(elems.skip(1) =~= elems.drop_first());
        assert(encoding_seq(elems.take(0)) + encoding(elems[0]) + encoding_seq(elems.skip(1)) =~= encoding(
            elems[0],
        ) + encoding_seq(elems.drop_first()));
    } else {
        let t = elems.drop_first();
        lemma_encoding_seq_decompose(t, i - 1);
        assert(elems.take(i).drop_first() =~= t.take(i - 1));
        assert(elems.take(i).len() > 0);
        assert(encoding_seq(elems.take(i)) == encoding(elems[0]) + encoding_seq(t.take(i - 1)));
        assert(t.skip(i) =~= elems.skip(i + 1));
        assert(t[i - 1] == elems[i]);
        assert(encoding_seq(elems) =~= encoding_seq(elems.take(i)) + encoding(elems[i])
            + encoding_seq(elems.skip(i + 1)));
    }
}

/// The encoding of a pair sequence splits at any pair: what comes before
/// it, the key's encoding, the value's, and what comes after.
pub proof fn lemma_encoding_pairs_decompose(pairs: Seq<(ValueModel, ValueModel)>, i: int)
    requires
        0 <= i < pairs.len(),
    ensures
        encoding_pairs(pairs) == encoding_pairs(pairs.take(i)) + encoding(pairs[i].0) + encoding(
            pairs[i].1,
        ) + encoding_pairs(pairs.skip(i + 1)),
    decreases i,
{
    if i == 0 {
        assert(pairs.take(0) =~= Seq::<(ValueModel, ValueModel)>::empty());
        assert(pairs.skip(1) =~= pairs.drop_first());
        assert(encoding_pairs(pairs.take(0)) + encoding(pairs[0].0) + encoding(pairs[0].1)
            + encoding_pairs(pairs.skip(1)) =~= encoding(pairs[0].0) + encoding(pairs[0].1)
            + encoding_pairs(pairs.drop_first()));
    } else {
        let t = pairs.drop_first();
        lemma_encoding_pairs_decompose(t, i - 1);
        assert(pairs.take(i).drop_first() =~= t.take(i - 1));
        assert(pairs.take(i).len() > 0);
        assert(encoding_pairs(pairs.take(i)) == encoding(pairs[0].0) + encoding(pairs[0].1)
            + encoding_pairs(t.take(i - 1)));
        assert(t.skip(i) =~= pairs.skip(i + 1));
        assert(t[i - 1] == pairs[i]);
        assert(encoding_pairs(pairs) =~= encoding_pairs(pairs.take(i)) + encoding(pairs[i].0)
            + encoding(pairs[i].1) + encoding_pairs(pairs.skip(i + 1)));
    }
}

/// Taking `done.len() + n` bytes of `done + child + rest` yields `done`
/// followed by the first `n` bytes of `child`.
pub proof fn lemma_take_within(done: Seq<u8>, child: Seq<u8>, rest: Seq<u8>, n: int)
    requires
        0 <= n <= child.len(),
    ensures
        (done + child + rest).take(done.len() + n) == done + child.take(n),
{
    assert((done + child + rest).take(done.len() + n) =~= done + child.take(n));
}

/// Order preservation: the encoding of a sequence of elements is the
/// byte-for-byte concatenation of the elements' encodings, in order.  In
/// particular an array body is `encoding(A) + encoding(B) + ...` for its
/// elements left to right.
pub proof fn lemma_encoding_seq_concat(s: Seq<ValueModel>, t: Seq<ValueModel>)
    ensures
        encoding_seq(s + t) == encoding_seq(s) + encoding_seq(t),
    decreases s,
{
    if s.len() == 0 {
        assert(s + t =~= t);
        assert(Seq::<u8>::empty() + encoding_seq(t) =~= encoding_seq(t));
    } else {
        lemma_encoding_seq_concat(s.drop_first(), t);
        assert((s + t).drop_first() =~= s.drop_first() + t);
        assert((s + t)[0] == s[0]);
        assert(encoding_seq(s + t) == encoding(s[0]) + (encoding_seq(s.drop_first())
            + encoding_seq(t)));
        assert(encoding(s[0]) + (encoding_seq(s.drop_first()) + encoding_seq(t)) =~= (encoding(
            s[0],
        ) + encoding_seq(s.drop_first())) + encoding_seq(t));
    }
}

/// Order preservation for maps: the encoding of a sequence of pairs is the
/// byte-for-byte concatenation, pair by pair in order, of each key's
/// encoding followed by its value's.
pub proof fn lemma_encoding_pairs_concat(
    s: Seq<(ValueModel, ValueModel)>,
    t: Seq<(ValueModel, ValueModel)>,
)
    ensures
        encoding_pairs(s + t) == encoding_pairs(s) + encoding_pairs(t),
    decreases s,
{
    if s.len() == 0 {
        assert(s + t =~= t);
        assert(Seq::<u8>::empty() + encoding_pairs(t) =~= encoding_pairs(t));
    } else {
        lemma_encoding_pairs_concat(s.drop_first(), t);
        assert((s + t).drop_first() =~= s.drop_first() + t);
        assert((s + t)[0] == s[0]);
        assert(encoding_pairs(s + t) == encoding(s[0].0) + encoding(s[0].1) + (encoding_pairs(
            s.drop_first(),
        ) + encoding_pairs(t)));
        assert(encoding(s[0].0) + encoding(s[0].1) + (encoding_pairs(s.drop_first())
            + encoding_pairs(t)) =~= (encoding(s[0].0) + encoding(s[0].1) + encoding_pairs(
            s.drop_first(),
        )) + encoding_pairs(t));
    }
}

/// Repeated encoding is idempotent: the bytes produced for a tree are a
/// function of the tree alone, so two encodings of the same tree, into
/// whatever independent sinks, consist of the same byte sequence.
pub proof fn lemma_encoding_deterministic(m: ValueModel, out1: Seq<u8>, out2: Seq<u8>)
    requires
        out1 == encoding(m),
        out2 == encoding(m),
    ensures
        out1 == out2,
{
}

} // verus!
