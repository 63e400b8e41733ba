//! The dynamically typed value tree that the encoder serializes.

use vstd::prelude::*;

verus! {

/// A node of a MessagePack value tree.
///
/// Scalar variants carry their payload directly.  The two float variants
/// carry the raw IEEE-754 bit pattern (32 or 64 bits), so that the wire
/// bytes are a pure function of the node; the tagging is significant and is
/// never changed by the encoder.  The `String` variant carries the UTF-8
/// bytes of the text.  Containers own their children; the encoder walks
/// them depth-first, left to right.
#[derive(Debug, PartialEq)]
pub enum ValueRef {
    Nil,
    Boolean(bool),
    U64(u64),
    I64(i64),
    F32(u32),
    F64(u64),
    String(Vec<u8>),
    Binary(Vec<u8>),
    Array(Vec<ValueRef>),
    Dict(Vec<(ValueRef, ValueRef)>),
    Ext(i8, Vec<u8>),
}

/// The mathematical model of a value tree: the same shape as [`ValueRef`],
/// with every byte vector abstracted to a `Seq<u8>` and every child list to
/// a `Seq`.  Contracts speak of this type.
pub enum ValueModel {
    Nil,
    Boolean(bool),
    U64(u64),
    I64(i64),
    F32(u32),
    F64(u64),
    String(Seq<u8>),
    Binary(Seq<u8>),
    Array(Seq<ValueModel>),
    Dict(Seq<(ValueModel, ValueModel)>),
    Ext(i8, Seq<u8>),
}

impl ValueRef {
    /// The mathematical model of this node: the same tree with byte
    /// vectors as `Seq<u8>` and child lists as `Seq`.
    pub open spec fn model(&self) -> ValueModel
        decreases self,
    {
        match self {
            ValueRef::Nil => ValueModel::Nil,
            ValueRef::Boolean(b) => ValueModel::Boolean(*b),
            ValueRef::U64(v) => ValueModel::U64(*v),
            ValueRef::I64(v) => ValueModel::I64(*v),
            ValueRef::F32(bits) => ValueModel::F32(*bits),
            ValueRef::F64(bits) => ValueModel::F64(*bits),
            ValueRef::String(s) => ValueModel::String(s@),
            ValueRef::Binary(b) => ValueModel::Binary(b@),
            ValueRef::Array(elems) => ValueModel::Array(model_seq(elems@)),
            ValueRef::Dict(pairs) => ValueModel::Dict(model_pairs(pairs@)),
            ValueRef::Ext(ty, data) => ValueModel::Ext(*ty, data@),
        }
    }
}

/// The models of a sequence of nodes, element by element.
pub open spec fn model_seq(elems: Seq<ValueRef>) -> Seq<ValueModel>
    decreases elems,
{
    if elems.len() == 0 {
        Seq::empty()
    } else {
        seq![elems[0].model()] + model_seq(elems.drop_first())
    }
}

/// The models of a sequence of key-value pairs, pair by pair.
pub open spec fn model_pairs(pairs: Seq<(ValueRef, ValueRef)>) -> Seq<(ValueModel, ValueModel)>
    decreases pairs,
{
    if pairs.len() == 0 {
        Seq::empty()
    } else {
        seq![(pairs[0].0.model(), pairs[0].1.model())] + model_pairs(pairs.drop_first())
    }
}

/// Each element of `model_seq` is the model of the matching node.
pub proof fn lemma_model_seq_index(elems: Seq<ValueRef>)
    ensures
        model_seq(elems).len() == elems.len(),
        forall|i: int| 0 <= i < elems.len() ==> model_seq(elems)[i] == #[trigger] elems[i].model(),
    decreases elems,
{
    if elems.len() > 0 {
        lemma_model_seq_index(elems.drop_first());
        assert forall|i: int| 0 <= i < elems.len() implies model_seq(elems)[i]
            == #[trigger] elems[i].model() by {
            if i > 0 {
                assert(model_seq(elems)[i] == model_seq(elems.drop_first())[i - 1]);
                assert(elems.drop_first()[i - 1] == elems[i]);
            }
        }
    }
}

/// Each element of `model_pairs` is the pair of models of the matching pair.
pub proof fn lemma_model_pairs_index(pairs: Seq<(ValueRef, ValueRef)>)
    ensures
        model_pairs(pairs).len() == pairs.len(),
        forall|i: int| 0 <= i < pairs.len() ==> model_pairs(pairs)[i] == (
            #[trigger] pairs[i].0.model(),
            pairs[i].1.model(),
        ),
    decreases pairs,
{
    if pairs.len() > 0 {
        lemma_model_pairs_index(pairs.drop_first());
        assert forall|i: int| 0 <= i < pairs.len() implies model_pairs(pairs)[i] == (
            #[trigger] pairs[i].0.model(),
            pairs[i].1.model(),
        ) by {
            if i > 0 {
                assert(model_pairs(pairs)[i] == model_pairs(pairs.drop_first())[i - 1]);
                assert(pairs.drop_first()[i - 1] == pairs[i]);
            }
        }
    }
}

} // verus!
