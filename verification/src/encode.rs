//! The value tree encoder.
//!
//! [`write_value_ref`] walks a [`ValueRef`] depth-first and hands the bytes
//! of [`encoding`] to a [`ByteSink`], one by one, stopping at the first
//! byte the sink refuses.  On success the sink has received exactly the
//! encoding; on failure it has received exactly a proper prefix of it, and
//! nothing more was handed to the sink after the refused byte.

use vstd::prelude::*;

use crate::format::{
    array_len_bytes, encoding, encoding_pairs, encoding_seq, lemma_encoding_pairs_decompose,
    lemma_encoding_pairs_push, lemma_encoding_seq_decompose, lemma_encoding_seq_push,
    lemma_take_within, map_len_bytes,
};
use crate::prim::{
    array_len_to_vec, bin_len_to_vec, bool_to_vec, ext_meta_to_vec, f32_to_vec, f64_to_vec,
    map_len_to_vec, nil_to_vec, sint_to_vec, str_len_to_vec, uint_to_vec,
};
use crate::sink::{ByteSink, VecSink};
use crate::value::{
    lemma_model_pairs_index, lemma_model_seq_index, model_pairs, model_seq, ValueModel, ValueRef,
};

verus! {

broadcast use vstd::std_specs::vec::group_vec_axioms;

/// Why an encoding attempt stopped.
#[derive(Debug, Clone, Copy, PartialEq, Eq, Structural)]
pub enum Error {
    /// The sink refused a marker byte: the first byte of a scalar form or
    /// of a length or extension prefix.
    InvalidMarkerWrite,
    /// The sink refused a payload byte: the trailing bytes of a scalar
    /// form or prefix, or string, binary or extension payload bytes.
    InvalidDataWrite,
}

/// Hand the sink a marker-led byte string: the first byte is a marker, the
/// rest carry data.  Stops at the first refusal, reporting whether the
/// marker or a later byte was refused.
fn put_prefixed<S: ByteSink>(wr: &mut S, data: &Vec<u8>) -> (r: Result<(), Error>)
    ensures
        final(wr).infallible() == old(wr).infallible(),
        old(wr).infallible() ==> r is Ok,
        r is Ok ==> final(wr).bytes() == old(wr).bytes() + data@
            && final(wr).offers() == old(wr).offers() + data@.len(),
        r matches Err(e) ==> exists|n: int|
            0 <= n < data@.len() && final(wr).bytes() == old(wr).bytes() + data@.take(n)
                && final(wr).offers() == old(wr).offers() + n + 1 && e == (if n == 0 {
                Error::InvalidMarkerWrite
            } else {
                Error::InvalidDataWrite
            }),
{
    let mut i: usize = 0;
    while i < data.len()
        invariant
            0 <= i <= data@.len(),
            wr.bytes() == old(wr).bytes() + data@.take(i as int),
            wr.offers() == old(wr).offers() + i,
            wr.infallible() == old(wr).infallible(),
        decreases data@.len() - i,
    {
        match wr.put(data[i]) {
            Ok(()) => {
                proof {
                    assert(data@.take(i as int).push(data@[i as int]) =~= data@.take(i + 1));
                    assert((old(wr).bytes() + data@.take(i as int)).push(data@[i as int])
                        =~= old(wr).bytes() + data@.take(i as int).push(data@[i as int]));
                }
                i = i + 1;
            },
            Err(()) => {
                let e = if i == 0 {
                    Error::InvalidMarkerWrite
                } else {
                    Error::InvalidDataWrite
                };
                return Err(e);
            },
        }
    }
    proof {
        assert(data@.take(data@.len() as int) =~= data@);
    }
    Ok(())
}

/// Hand the sink raw payload bytes (string, binary or extension payload).
/// Any refusal is a data-write failure.
fn put_payload<S: ByteSink>(wr: &mut S, data: &Vec<u8>) -> (r: Result<(), Error>)
    ensures
        final(wr).infallible() == old(wr).infallible(),
        old(wr).infallible() ==> r is Ok,
        r is Ok ==> final(wr).bytes() == old(wr).bytes() + data@
            && final(wr).offers() == old(wr).offers() + data@.len(),
        r matches Err(e) ==> e == Error::InvalidDataWrite && exists|n: int|
            0 <= n < data@.len() && final(wr).bytes() == old(wr).bytes() + data@.take(n)
                && final(wr).offers() == old(wr).offers() + n + 1,
{
    let mut i: usize = 0;
    while i < data.len()
        invariant
            0 <= i <= data@.len(),
            wr.bytes() == old(wr).bytes() + data@.take(i as int),
            wr.offers() == old(wr).offers() + i,
            wr.infallible() == old(wr).infallible(),
        decreases data@.len() - i,
    {
        match wr.put(data[i]) {
            Ok(()) => {
                proof {
                    assert(data@.take(i as int).push(data@[i as int]) =~= data@.take(i + 1));
                    assert((old(wr).bytes() + data@.take(i as int)).push(data@[i as int])
                        =~= old(wr).bytes() + data@.take(i as int).push(data@[i as int]));
                }
                i = i + 1;
            },
            Err(()) => {
                return Err(Error::InvalidDataWrite);
            },
        }
    }
    proof {
        assert(data@.take(data@.len() as int) =~= data@);
    }
    Ok(())
}

/// Write one complete marker-led form: the whole wire image of a scalar
/// node, handed over byte by byte and tied to the tree it encodes.
fn write_form<S: ByteSink>(wr: &mut S, form: &Vec<u8>, Ghost(m): Ghost<ValueModel>) -> (r: Result<
    (),
    Error,
>)
    requires
        form@ == encoding(m),
        !(m is Array),
        !(m is Dict),
    ensures
        final(wr).infallible() == old(wr).infallible(),
        old(wr).infallible() ==> r is Ok,
        r is Ok ==> final(wr).bytes() == old(wr).bytes() + encoding(m)
            && final(wr).offers() == old(wr).offers() + encoding(m).len(),
        r matches Err(e) ==> exists|n: int|
            0 <= n < encoding(m).len() && final(wr).bytes() == old(wr).bytes() + encoding(m).take(
                n,
            ) && final(wr).offers() == old(wr).offers() + n + 1 && e == error_kind_at(m, n),
{
    let r = put_prefixed(wr, form);
    proof {
        lemma_error_kind_flat(m);
        if r is Err {
            lemma_form_err_transfer(
                m,
                old(wr).bytes(),
                wr.bytes(),
                old(wr).offers(),
                wr.offers(),
                r->Err_0,
            );
        }
    }
    r
}

/// Encodes and writes the given value tree into the sink.
///
/// On `Ok` the sink has accepted exactly the MessagePack encoding of the
/// tree, appended to whatever it held before — every node in depth-first,
/// left-to-right order, a key immediately before its value within each map
/// pair — and was offered exactly those bytes, each once.  On `Err` the
/// sink holds exactly the encoding's first `n` bytes for the `n` it
/// accepted, and was offered exactly `n + 1`: the refused byte ends the
/// encode, and nothing is offered after it — no later prefix byte, sibling
/// or child.  The error names what the refused byte was, as
/// [`error_kind_at`] states it: the marker-write kind at a form's marker
/// byte, the data-write kind at trailing prefix and payload bytes.  A sink
/// that never refuses makes failure impossible.
#[verifier::spinoff_prover]
pub fn write_value_ref<S: ByteSink>(wr: &mut S, val: &ValueRef) -> (r: Result<(), Error>)
    ensures
        final(wr).infallible() == old(wr).infallible(),
        old(wr).infallible() ==> r is Ok,
        r is Ok ==> final(wr).bytes() == old(wr).bytes() + encoding(val.model())
            && final(wr).offers() == old(wr).offers() + encoding(val.model()).len(),
        r matches Err(e) ==> exists|n: int|
            0 <= n < encoding(val.model()).len() && final(wr).bytes() == old(wr).bytes()
                + encoding(val.model()).take(n) && final(wr).offers() == old(wr).offers() + n + 1
                && e == error_kind_at(val.model(), n),
    decreases *val,
{
    match val {
        ValueRef::Nil => {
            let form = nil_to_vec();
            proof {
                assert(form@ == encoding(val.model()));
            }
            write_form(wr, &form, Ghost(val.model()))
        },
        ValueRef::Boolean(v) => {
            let form = bool_to_vec(*v);
            proof {
                assert(form@ == encoding(val.model()));
            }
            write_form(wr, &form, Ghost(val.model()))
        },
        ValueRef::U64(v) => {
            let form = uint_to_vec(*v);
            proof {
                assert(form@ == encoding(val.model()));
            }
            write_form(wr, &form, Ghost(val.model()))
        },
        ValueRef::I64(v) => {
            let form = sint_to_vec(*v);
            proof {
                assert(form@ == encoding(val.model()));
            }
            write_form(wr, &form, Ghost(val.model()))
        },
        ValueRef::F32(bits) => {
            let form = f32_to_vec(*bits);
            proof {
                assert(form@ == encoding(val.model()));
            }
            write_form(wr, &form, Ghost(val.model()))
        },
        ValueRef::F64(bits) => {
            let form = f64_to_vec(*bits);
            proof {
                assert(form@ == encoding(val.model()));
            }
            write_form(wr, &form, Ghost(val.model()))
        },
        ValueRef::String(s) => {
            let prefix = str_len_to_vec(#[verifier::truncate] (s.len() as u32));
            proof { assert(encoding(val.model()) == prefix@ + s@);
            }
            write_chunk(wr, &prefix, s, Ghost(val.model()))
        },
        ValueRef::Binary(b) => {
            let prefix = bin_len_to_vec(#[verifier::truncate] (b.len() as u32));
            proof { assert(encoding(val.model()) == prefix@ + b@);
            }
            write_chunk(wr, &prefix, b, Ghost(val.model()))
        },
        ValueRef::Ext(ty, data) => {
            let prefix = ext_meta_to_vec(#[verifier::truncate] (data.len() as u32), *ty);
            proof { assert(encoding(val.model()) == prefix@ + data@);
            }
            write_chunk(wr, &prefix, data, Ghost(val.model()))
        },
        ValueRef::Array(elems) => {
            let r = write_array(wr, elems);
            proof { assert(val.model() == ValueModel::Array(model_seq(elems@))); }
            r
        },
        ValueRef::Dict(pairs) => {
            let r = write_dict(wr, pairs);
            proof { assert(val.model() == ValueModel::Dict(model_pairs(pairs@))); }
            r
        },
    }
}

/// Write a prefix, then payload bytes, with the given total encoding; the
/// shared shape of the string, binary and extension arms.
fn write_chunk<S: ByteSink>(
    wr: &mut S,
    prefix: &Vec<u8>,
    payload: &Vec<u8>,
    Ghost(m): Ghost<ValueModel>,
) -> (r: Result<(), Error>)
    requires
        encoding(m) == prefix@ + payload@,
        prefix@.len() >= 1,
        !(m is Array),
        !(m is Dict),
    ensures
        final(wr).infallible() == old(wr).infallible(),
        old(wr).infallible() ==> r is Ok,
        r is Ok ==> final(wr).bytes() == old(wr).bytes() + encoding(m)
            && final(wr).offers() == old(wr).offers() + encoding(m).len(),
        r matches Err(e) ==> exists|n: int|
            0 <= n < encoding(m).len() && final(wr).bytes() == old(wr).bytes() + encoding(m).take(
                n,
            ) && final(wr).offers() == old(wr).offers() + n + 1 && e == error_kind_at(m, n),
{
    let ghost total = encoding(m);
    proof {
        lemma_error_kind_flat(m);
    }
    match put_prefixed(wr, prefix) {
        Ok(()) => (),
        Err(e) => {
            proof {
                let n = choose|n: int|
                    0 <= n < prefix@.len() && wr.bytes() == old(wr).bytes() + prefix@.take(n)
                        && wr.offers() == old(wr).offers() + n + 1 && e == (if n == 0 {
                        Error::InvalidMarkerWrite
                    } else {
                        Error::InvalidDataWrite
                    });
                lemma_take_within(Seq::empty(), prefix@, payload@, n);
                assert(Seq::<u8>::empty() + prefix@ + payload@ =~= total);
                assert(Seq::<u8>::empty() + prefix@.take(n) =~= prefix@.take(n));
                assert(e == error_kind_at(m, n));
            }
            return Err(e);
        },
    }
    match put_payload(wr, payload) {
        Ok(()) => {
            proof {
                assert((old(wr).bytes() + prefix@) + payload@ =~= old(wr).bytes() + (prefix@
                    + payload@));
            }
            Ok(())
        },
        Err(e) => {
            proof {
                let n = choose|n: int|
                    0 <= n < payload@.len() && wr.bytes() == (old(wr).bytes() + prefix@)
                        + payload@.take(n) && wr.offers() == (old(wr).offers() + prefix@.len())
                        + n + 1;
                assert(total =~= prefix@ + payload@ + Seq::<u8>::empty());
                lemma_take_within(prefix@, payload@, Seq::empty(), n);
                assert((old(wr).bytes() + prefix@) + payload@.take(n) =~= old(wr).bytes() + (
                prefix@ + payload@.take(n)));
                assert(prefix@.len() + n >= 1);
                assert(e == error_kind_at(m, prefix@.len() + n));
            }
            Err(e)
        },
    }
}

/// Write an array node: the length prefix, then each element in order.
#[verifier::loop_isolation(false)]
#[verifier::rlimit(100)]
#[verifier::spinoff_prover]
fn write_array<S: ByteSink>(wr: &mut S, elems: &Vec<ValueRef>) -> (r: Result<(), Error>)
    ensures
        final(wr).infallible() == old(wr).infallible(),
        old(wr).infallible() ==> r is Ok,
        r is Ok ==> final(wr).bytes() == old(wr).bytes() + encoding(
            ValueModel::Array(model_seq(elems@)),
        ) && final(wr).offers() == old(wr).offers() + encoding(
            ValueModel::Array(model_seq(elems@)),
        ).len(),
        r matches Err(e) ==> exists|n: int|
            0 <= n < encoding(ValueModel::Array(model_seq(elems@))).len() && final(wr).bytes()
                == old(wr).bytes() + encoding(ValueModel::Array(model_seq(elems@))).take(n)
                && final(wr).offers() == old(wr).offers() + n + 1 && e == error_kind_at(
                ValueModel::Array(model_seq(elems@)),
                n,
            ),
    decreases *elems,
{
    proof {
        lemma_model_seq_index(elems@);
    }
    let ghost models = model_seq(elems@);
    let ghost total = encoding(ValueModel::Array(models));
    let prefix = array_len_to_vec(#[verifier::truncate] (elems.len() as u32));
    proof {
        assert(prefix@ == array_len_bytes(models.len() as u32));
        assert(prefix@.len() >= 1);
    }
    match put_prefixed(wr, &prefix) {
        Ok(()) => (),
        Err(e) => {
            proof {
                let n = choose|n: int|
                    0 <= n < prefix@.len() && wr.bytes() == old(wr).bytes() + prefix@.take(n)
                        && wr.offers() == old(wr).offers() + n + 1 && e == (if n == 0 {
                        Error::InvalidMarkerWrite
                    } else {
                        Error::InvalidDataWrite
                    });
                lemma_take_within(Seq::empty(), prefix@, encoding_seq(models), n);
                assert(Seq::<u8>::empty() + prefix@ + encoding_seq(models) =~= total);
                assert(Seq::<u8>::empty() + prefix@.take(n) =~= prefix@.take(n));
                assert(e == error_kind_at(ValueModel::Array(models), n));
            }
            return Err(e);
        },
    }
    let mut i: usize = 0;
    while i < elems.len()
        invariant
            0 <= i <= elems@.len(),
            wr.bytes() == old(wr).bytes() + prefix@ + encoding_seq(models.take(i as int)),
            wr.offers() == old(wr).offers() + prefix@.len() + encoding_seq(
                models.take(i as int),
            ).len(),
            wr.infallible() == old(wr).infallible(),
        decreases elems@.len() - i,
    {
        let ghost done = prefix@ + encoding_seq(models.take(i as int));
        let ghost prev = wr.bytes();
        let ghost prev_offers = wr.offers();
        proof {
            assert(prev =~= old(wr).bytes() + done);
            assert(prev_offers == old(wr).offers() + done.len());
            assert(elems@[i as int].model() == models[i as int]);
            assert(decreases_to!(*elems => elems@));
            assert(decreases_to!(elems@ => elems@[i as int]));
        }
        match write_value_ref(wr, &elems[i]) {
            Ok(()) => {
                proof {
                    lemma_encoding_seq_push(models.take(i as int), models[i as int]);
                    assert(models.take(i as int).push(models[i as int]) =~= models.take(i + 1));
                    assert(prev + encoding(models[i as int]) =~= old(wr).bytes() + prefix@ + (
                    encoding_seq(models.take(i as int)) + encoding(models[i as int])));
                }
                i = i + 1;
            },
            Err(e) => {
                proof {
                    let child = encoding(models[i as int]);
                    let n = choose|n: int|
                        0 <= n < child.len() && wr.bytes() == prev + child.take(n) && wr.offers()
                            == prev_offers + n + 1 && e == error_kind_at(models[i as int], n);
                    lemma_encoding_seq_decompose(models, i as int);
                    let rest = encoding_seq(models.skip(i + 1));
                    assert(total =~= done + child + rest);
                    lemma_take_within(done, child, rest, n);
                    assert(prev + child.take(n) =~= old(wr).bytes() + (done + child.take(n)));
                    lemma_seq_error_kind_at(models, i as int, n);
                    assert(error_kind_at(ValueModel::Array(models), done.len() + n)
                        == seq_error_kind(models, encoding_seq(models.take(i as int)).len() + n));
                }
                return Err(e);
            },
        }
    }
    proof {
        assert(models.take(models.len() as int) =~= models);
        assert((old(wr).bytes() + prefix@) + encoding_seq(models) =~= old(wr).bytes() + (prefix@
            + encoding_seq(models)));
    }
    Ok(())
}

/// Write a map node: the length prefix, then for each pair the key, then
/// the value, pairs in order.
#[verifier::loop_isolation(false)]
#[verifier::rlimit(100)]
#[verifier::spinoff_prover]
fn write_dict<S: ByteSink>(wr: &mut S, pairs: &Vec<(ValueRef, ValueRef)>) -> (r: Result<(), Error>)
    ensures
        final(wr).infallible() == old(wr).infallible(),
        old(wr).infallible() ==> r is Ok,
        r is Ok ==> final(wr).bytes() == old(wr).bytes() + encoding(
            ValueModel::Dict(model_pairs(pairs@)),
        ) && final(wr).offers() == old(wr).offers() + encoding(
            ValueModel::Dict(model_pairs(pairs@)),
        ).len(),
        r matches Err(e) ==> exists|n: int|
            0 <= n < encoding(ValueModel::Dict(model_pairs(pairs@))).len() && final(wr).bytes()
                == old(wr).bytes() + encoding(ValueModel::Dict(model_pairs(pairs@))).take(n)
                && final(wr).offers() == old(wr).offers() + n + 1 && e == error_kind_at(
                ValueModel::Dict(model_pairs(pairs@)),
                n,
            ),
    decreases *pairs,
{
    proof {
        lemma_model_pairs_index(pairs@);
    }
    let ghost models = model_pairs(pairs@);
    let ghost total = encoding(ValueModel::Dict(models));
    let prefix = map_len_to_vec(#[verifier::truncate] (pairs.len() as u32));
    proof {
        assert(prefix@ == map_len_bytes(#[verifier::truncate] (models.len() as u32)));
        assert(prefix@.len() >= 1);
    }
    match put_prefixed(wr, &prefix) {
        Ok(()) => (),
        Err(e) => {
            proof {
                let n = choose|n: int|
                    0 <= n < prefix@.len() && wr.bytes() == old(wr).bytes() + prefix@.take(n)
                        && wr.offers() == old(wr).offers() + n + 1 && e == (if n == 0 {
                        Error::InvalidMarkerWrite
                    } else {
                        Error::InvalidDataWrite
                    });
                lemma_take_within(Seq::empty(), prefix@, encoding_pairs(models), n);
                assert(Seq::<u8>::empty() + prefix@ + encoding_pairs(models) =~= total);
                assert(Seq::<u8>::empty() + prefix@.take(n) =~= prefix@.take(n));
                assert(e == error_kind_at(ValueModel::Dict(models), n));
            }
            return Err(e);
        },
    }
    let mut i: usize = 0;
    while i < pairs.len()
        invariant
            0 <= i <= pairs@.len(),
            wr.bytes() == old(wr).bytes() + prefix@ + encoding_pairs(models.take(i as int)),
            wr.offers() == old(wr).offers() + prefix@.len() + encoding_pairs(
                models.take(i as int),
            ).len(),
            wr.infallible() == old(wr).infallible(),
        decreases pairs@.len() - i,
    {
        let ghost done = prefix@ + encoding_pairs(models.take(i as int));
        let pair = &pairs[i];
        proof {
            lemma_encoding_pairs_decompose(models, i as int);
            assert(pairs@[i as int].0.model() == models[i as int].0);
            assert(pairs@[i as int].1.model() == models[i as int].1);
        }
        let ghost child_k = encoding(models[i as int].0);
        let ghost child_v = encoding(models[i as int].1);
        let ghost rest = encoding_pairs(models.skip(i + 1));
        let ghost prev = wr.bytes();
        let ghost prev_offers = wr.offers();
        proof {
            assert(prev =~= old(wr).bytes() + done);
            assert(prev_offers == old(wr).offers() + done.len());
            assert(total =~= done + child_k + (child_v + rest));
            assert(total =~= (done + child_k) + child_v + rest);
            assert(decreases_to!(*pairs => pairs@));
            assert(decreases_to!(pairs@ => pairs@[i as int]));
            assert(decreases_to!(pairs@[i as int] => pairs@[i as int].0));
            assert(decreases_to!(pairs@[i as int] => pairs@[i as int].1));
        }
        match write_value_ref(wr, &pair.0) {
            Ok(()) => (),
            Err(e) => {
                proof {
                    let n = choose|n: int|
                        0 <= n < child_k.len() && wr.bytes() == prev + child_k.take(n)
                            && wr.offers() == prev_offers + n + 1 && e == error_kind_at(
                            models[i as int].0,
                            n,
                        );
                    lemma_take_within(done, child_k, child_v + rest, n);
                    assert(prev + child_k.take(n) =~= old(wr).bytes() + (done + child_k.take(n)));
                    lemma_pair_error_kind_at(models, i as int, n);
                    assert(error_kind_at(ValueModel::Dict(models), done.len() + n)
                        == pair_error_kind(
                        models,
                        encoding_pairs(models.take(i as int)).len() + n,
                    ));
                }
                return Err(e);
            },
        }
        let ghost mid = wr.bytes();
        let ghost mid_offers = wr.offers();
        proof {
            assert(mid == prev + child_k);
            assert(mid =~= old(wr).bytes() + (done + child_k));
            assert(mid_offers == old(wr).offers() + (done.len() + child_k.len()));
        }
        match write_value_ref(wr, &pair.1) {
            Ok(()) => (),
            Err(e) => {
                proof {
                    let n = choose|n: int|
                        0 <= n < child_v.len() && wr.bytes() == mid + child_v.take(n)
                            && wr.offers() == mid_offers + n + 1 && e == error_kind_at(
                            models[i as int].1,
                            n,
                        );
                    lemma_take_within(done + child_k, child_v, rest, n);
                    assert(mid + child_v.take(n) =~= old(wr).bytes() + ((done + child_k)
                        + child_v.take(n)));
                    lemma_pair_error_kind_at(models, i as int, n);
                    assert(error_kind_at(ValueModel::Dict(models), done.len() + child_k.len() + n)
                        == pair_error_kind(
                        models,
                        encoding_pairs(models.take(i as int)).len() + child_k.len() + n,
                    ));
                }
                return Err(e);
            },
        }
        proof {
            lemma_encoding_pairs_push(models.take(i as int), models[i as int]);
            assert(models.take(i as int).push(models[i as int]) =~= models.take(i + 1));
            assert(mid + child_v =~= old(wr).bytes() + prefix@ + (encoding_pairs(models.take(
                i as int,
            )) + child_k + child_v));
        }
        i = i + 1;
    }
    proof {
        assert(models.take(models.len() as int) =~= models);
        assert((old(wr).bytes() + prefix@) + encoding_pairs(models) =~= old(wr).bytes() + (prefix@
            + encoding_pairs(models)));
    }
    Ok(())
}

/// Encode a value tree into a fresh in-memory buffer.
///
/// The buffer sink never refuses a byte, so encoding cannot fail: the
/// result is exactly the MessagePack encoding of the tree.
pub fn write_value_ref_to_vec(val: &ValueRef) -> (r: Vec<u8>)
    ensures
        r@ == encoding(val.model()),
{
    let mut sink = VecSink::new();
    match write_value_ref(&mut sink, val) {
        Ok(()) => sink.into_vec(),
        Err(_) => vstd::pervasive::unreached(),
    }
}

/// The error reported when the sink refuses byte `n` of a tree's
/// encoding: the marker-write kind at each form's marker byte (the first
/// byte of a scalar form or of a length or extension prefix), the
/// data-write kind at every other byte — trailing prefix bytes and
/// payloads.  Inside a container, the kind of a byte within a child's
/// encoding is the child's own.
pub open spec fn error_kind_at(m: ValueModel, n: int) -> Error
    decreases m,
{
    match m {
        ValueModel::Array(elems) => if n == 0 {
            Error::InvalidMarkerWrite
        } else if n < array_len_bytes(elems.len() as u32).len() {
            Error::InvalidDataWrite
        } else {
            seq_error_kind(elems, n - array_len_bytes(elems.len() as u32).len())
        },
        ValueModel::Dict(pairs) => if n == 0 {
            Error::InvalidMarkerWrite
        } else if n < map_len_bytes(pairs.len() as u32).len() {
            Error::InvalidDataWrite
        } else {
            pair_error_kind(pairs, n - map_len_bytes(pairs.len() as u32).len())
        },
        _ => if n == 0 {
            Error::InvalidMarkerWrite
        } else {
            Error::InvalidDataWrite
        },
    }
}

/// The error kind at byte `n` of the concatenated encodings of a
/// sequence of trees.
pub open spec fn seq_error_kind(elems: Seq<ValueModel>, n: int) -> Error
    decreases elems,
{
    if elems.len() == 0 {
        Error::InvalidDataWrite
    } else if n < encoding(elems[0]).len() {
        error_kind_at(elems[0], n)
    } else {
        seq_error_kind(elems.drop_first(), n - encoding(elems[0]).len())
    }
}

/// The error kind at byte `n` of the concatenated encodings of a
/// sequence of key-value pairs.
pub open spec fn pair_error_kind(pairs: Seq<(ValueModel, ValueModel)>, n: int) -> Error
    decreases pairs,
{
    if pairs.len() == 0 {
        Error::InvalidDataWrite
    } else if n < encoding(pairs[0].0).len() {
        error_kind_at(pairs[0].0, n)
    } else if n - encoding(pairs[0].0).len() < encoding(pairs[0].1).len() {
        error_kind_at(pairs[0].1, n - encoding(pairs[0].0).len())
    } else {
        pair_error_kind(
            pairs.drop_first(),
            n - encoding(pairs[0].0).len() - encoding(pairs[0].1).len(),
        )
    }
}

/// Away from containers, the error kind is the marker-write kind at the
/// first byte and the data-write kind everywhere else.
proof fn lemma_error_kind_flat(m: ValueModel)
    requires
        !(m is Array),
        !(m is Dict),
    ensures
        forall|n: int| #[trigger] error_kind_at(m, n) == (if n == 0 {
            Error::InvalidMarkerWrite
        } else {
            Error::InvalidDataWrite
        }),
{
}

/// Carry a byte-form failure witness over to the tree-level contract: for
/// a tree written as one marker-led form, the refusal position fixes the
/// error kind.
proof fn lemma_form_err_transfer(
    m: ValueModel,
    pre: Seq<u8>,
    post: Seq<u8>,
    pre_off: nat,
    post_off: nat,
    e: Error,
)
    requires
        forall|n: int| #[trigger] error_kind_at(m, n) == (if n == 0 {
            Error::InvalidMarkerWrite
        } else {
            Error::InvalidDataWrite
        }),
        exists|n: int|
            0 <= n < encoding(m).len() && post == pre + encoding(m).take(n) && post_off == pre_off
                + n + 1 && e == (if n == 0 {
                Error::InvalidMarkerWrite
            } else {
                Error::InvalidDataWrite
            }),
    ensures
        exists|n: int|
            0 <= n < encoding(m).len() && post == pre + encoding(m).take(n) && post_off == pre_off
                + n + 1 && e == error_kind_at(m, n),
{
    let n = choose|n: int|
        0 <= n < encoding(m).len() && post == pre + encoding(m).take(n) && post_off == pre_off + n
            + 1 && e == (if n == 0 {
            Error::InvalidMarkerWrite
        } else {
            Error::InvalidDataWrite
        });
    assert(e == error_kind_at(m, n));
    assert(0 <= n < encoding(m).len() && post == pre + encoding(m).take(n) && post_off == pre_off
        + n + 1 && e == error_kind_at(m, n));
}

/// Within a sequence of trees, the error kind at offset `k` of the
/// element at position `i` is the kind at the matching offset of the
/// whole concatenation.
proof fn lemma_seq_error_kind_at(elems: Seq<ValueModel>, i: int, k: int)
    requires
        0 <= i < elems.len(),
        0 <= k < encoding(elems[i]).len(),
    ensures
        seq_error_kind(elems, encoding_seq(elems.take(i)).len() + k) == error_kind_at(
            elems[i],
            k,
        ),
    decreases i,
{
    if i == 0 {
        assert(encoding_seq(elems.take(0)) == Seq::<u8>::empty());
    } else {
        let t = elems.drop_first();
        lemma_seq_error_kind_at(t, i - 1, k);
        assert(elems.take(i).drop_first() =~= t.take(i - 1));
        assert(elems.take(i)[0] == elems[0]);
        assert(encoding_seq(elems.take(i)) == encoding(elems[0]) + encoding_seq(t.take(i - 1)));
        assert(t[i - 1] == elems[i]);
    }
}

/// Within a sequence of pairs, the error kind at an offset inside the
/// key or the value of the pair at position `i` is that key's or value's
/// own kind at the matching offset of the whole concatenation.
proof fn lemma_pair_error_kind_at(pairs: Seq<(ValueModel, ValueModel)>, i: int, k: int)
    requires
        0 <= i < pairs.len(),
    ensures
        0 <= k < encoding(pairs[i].0).len() ==> pair_error_kind(
            pairs,
            encoding_pairs(pairs.take(i)).len() + k,
        ) == error_kind_at(pairs[i].0, k),
        0 <= k < encoding(pairs[i].1).len() ==> pair_error_kind(
            pairs,
            encoding_pairs(pairs.take(i)).len() + encoding(pairs[i].0).len() + k,
        ) == error_kind_at(pairs[i].1, k),
    decreases i,
{
    if i == 0 {
        assert(encoding_pairs(pairs.take(0)) == Seq::<u8>::empty());
    } else {
        let t = pairs.drop_first();
        lemma_pair_error_kind_at(t, i - 1, k);
        assert(pairs.take(i).drop_first() =~= t.take(i - 1));
        assert(pairs.take(i)[0] == pairs[0]);
        assert(encoding_pairs(pairs.take(i)) == encoding(pairs[0].0) + encoding(pairs[0].1)
            + encoding_pairs(t.take(i - 1)));
        assert(t[i - 1] == pairs[i]);
    }
}

} // verus!
