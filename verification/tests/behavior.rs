use rmpv::encode::{write_value_ref, write_value_ref_to_vec, Error};
use rmpv::sink::{LimitedSink, VecSink};
use rmpv::value::ValueRef;

#[test]
fn array_concatenates_child_encodings_in_order() {
    let a = ValueRef::U64(1);
    let b = ValueRef::String(b"ab".to_vec());
    let c = ValueRef::Boolean(true);
    let mut expected = vec![0x93];
    expected.extend(write_value_ref_to_vec(&a));
    expected.extend(write_value_ref_to_vec(&b));
    expected.extend(write_value_ref_to_vec(&c));
    let arr = ValueRef::Array(vec![a, b, c]);
    assert_eq!(write_value_ref_to_vec(&arr), expected);
}

#[test]
fn map_keeps_pair_order_key_before_value() {
    let pairs = vec![
        (ValueRef::String(b"b".to_vec()), ValueRef::U64(2)),
        (ValueRef::String(b"a".to_vec()), ValueRef::U64(1)),
    ];
    let out = write_value_ref_to_vec(&ValueRef::Dict(pairs));
    // Insertion order on the wire: "b" first, each key right before its value.
    assert_eq!(out, vec![0x82, 0xa1, b'b', 0x02, 0xa1, b'a', 0x01]);
}

#[test]
fn map_duplicate_keys_preserved() {
    let pairs = vec![
        (ValueRef::U64(1), ValueRef::U64(2)),
        (ValueRef::U64(1), ValueRef::U64(3)),
    ];
    let out = write_value_ref_to_vec(&ValueRef::Dict(pairs));
    assert_eq!(out, vec![0x82, 0x01, 0x02, 0x01, 0x03]);
}

#[test]
fn nested_containers() {
    let inner = ValueRef::Dict(vec![(
        ValueRef::String(b"k".to_vec()),
        ValueRef::Array(vec![ValueRef::Nil, ValueRef::I64(-1)]),
    )]);
    let out = write_value_ref_to_vec(&ValueRef::Array(vec![inner, ValueRef::U64(7)]));
    assert_eq!(out, vec![0x92, 0x81, 0xa1, b'k', 0x92, 0xc0, 0xff, 0x07]);
}

#[test]
fn repeated_encoding_is_identical() {
    let tree = ValueRef::Array(vec![
        ValueRef::Dict(vec![(ValueRef::String(b"x".to_vec()), ValueRef::F64(0x4000_0000_0000_0000))]),
        ValueRef::Ext(-1, vec![0xde, 0xad]),
        ValueRef::U64(12345),
    ]);
    let mut sink1 = VecSink::new();
    let mut sink2 = VecSink::new();
    assert!(write_value_ref(&mut sink1, &tree).is_ok());
    assert!(write_value_ref(&mut sink2, &tree).is_ok());
    assert_eq!(sink1.into_vec(), sink2.into_vec());
    let again = write_value_ref_to_vec(&tree);
    assert_eq!(again, write_value_ref_to_vec(&tree));
}

#[test]
fn sink_failure_on_first_byte_is_marker_error() {
    let mut sink = LimitedSink::new(0);
    let r = write_value_ref(&mut sink, &ValueRef::U64(300));
    assert_eq!(r, Err(Error::InvalidMarkerWrite));
    assert!(sink.buf.is_empty());
    assert_eq!(sink.calls, 1);
}

#[test]
fn sink_failure_on_payload_byte_is_data_error() {
    // U64(300) encodes as [0xcd, 0x01, 0x2c]; the sink takes one byte.
    let mut sink = LimitedSink::new(1);
    let r = write_value_ref(&mut sink, &ValueRef::U64(300));
    assert_eq!(r, Err(Error::InvalidDataWrite));
    assert_eq!(sink.buf, vec![0xcd]);
    assert_eq!(sink.calls, 2);
}

#[test]
fn sink_failure_stops_all_further_writes() {
    // Full encoding is [0xaa] plus ten text bytes; the sink accepts five.
    let val = ValueRef::String(b"le message".to_vec());
    let full = write_value_ref_to_vec(&val);
    let mut sink = LimitedSink::new(5);
    let r = write_value_ref(&mut sink, &val);
    assert!(r.is_err());
    assert_eq!(sink.buf, full[..5].to_vec());
    // Five accepted bytes, one refusal, and nothing attempted after it.
    assert_eq!(sink.calls, 6);
}

#[test]
fn sink_failure_in_array_abandons_later_children() {
    // [0x93, 0x00, 0x01, 0x02]: the sink accepts the prefix and one child.
    let arr = ValueRef::Array(vec![ValueRef::U64(0), ValueRef::U64(1), ValueRef::U64(2)]);
    let mut sink = LimitedSink::new(2);
    let r = write_value_ref(&mut sink, &arr);
    assert!(r.is_err());
    assert_eq!(sink.buf, vec![0x93, 0x00]);
    assert_eq!(sink.calls, 3);
}

#[test]
fn exact_limit_still_succeeds() {
    let val = ValueRef::String(b"le message".to_vec());
    let mut sink = LimitedSink::new(11);
    assert!(write_value_ref(&mut sink, &val).is_ok());
    assert_eq!(sink.buf, write_value_ref_to_vec(&val));
    assert_eq!(sink.calls, 11);
}

#[test]
fn encoding_appends_after_existing_bytes() {
    let mut sink = VecSink::new();
    assert!(write_value_ref(&mut sink, &ValueRef::Nil).is_ok());
    assert!(write_value_ref(&mut sink, &ValueRef::U64(1)).is_ok());
    assert_eq!(sink.into_vec(), vec![0xc0, 0x01]);
}

#[test]
fn matches_rmp_scalar_encoders() {
    // The library's bytes agree with the rmp primitives it trusts.
    for v in [0u64, 1, 127, 128, 255, 256, 65535, 65536, 0xffff_ffff, 0x1_0000_0000, u64::MAX] {
        let mut direct = Vec::new();
        rmp::encode::write_uint(&mut direct, v).unwrap();
        assert_eq!(write_value_ref_to_vec(&ValueRef::U64(v)), direct);
    }
    for v in [-1i64, -32, -33, -128, -129, -32768, -32769, -5_000_000_000, i64::MIN, 0, 7, 3000]
    {
        let mut direct = Vec::new();
        rmp::encode::write_sint(&mut direct, v).unwrap();
        assert_eq!(write_value_ref_to_vec(&ValueRef::I64(v)), direct);
    }
    let mut direct = Vec::new();
    rmp::encode::write_str(&mut direct, "le message").unwrap();
    assert_eq!(
        write_value_ref_to_vec(&ValueRef::String(b"le message".to_vec())),
        direct
    );
    let mut direct = Vec::new();
    rmp::encode::write_bin(&mut direct, &[1, 2, 3]).unwrap();
    assert_eq!(write_value_ref_to_vec(&ValueRef::Binary(vec![1, 2, 3])), direct);
}

#[test]
fn matches_rmp_float_encoders() {
    let mut direct = Vec::new();
    rmp::encode::write_f32(&mut direct, 1.5f32).unwrap();
    assert_eq!(
        write_value_ref_to_vec(&ValueRef::F32(1.5f32.to_bits())),
        direct
    );
    let mut direct = Vec::new();
    rmp::encode::write_f64(&mut direct, -0.25f64).unwrap();
    assert_eq!(
        write_value_ref_to_vec(&ValueRef::F64((-0.25f64).to_bits())),
        direct
    );
}

#[test]
fn child_marker_refusal_is_marker_error() {
    // [0x93, 0x00, 0x01, 0x02]: the sink takes the array prefix only, so
    // the first child's marker byte is the one refused.
    let arr = ValueRef::Array(vec![ValueRef::U64(0), ValueRef::U64(1), ValueRef::U64(2)]);
    let mut sink = LimitedSink::new(1);
    let r = write_value_ref(&mut sink, &arr);
    assert_eq!(r, Err(Error::InvalidMarkerWrite));
    assert_eq!(sink.buf, vec![0x93]);
    assert_eq!(sink.calls, 2);
}

#[test]
fn payload_refusal_is_data_error() {
    // Ext(5, [1, 2, 3]) is [0xc7, 0x03, 0x05, 1, 2, 3]; refusing a payload
    // byte reports the data-write kind, as the prefix bytes past the
    // marker do too.
    let ext = ValueRef::Ext(5, vec![1, 2, 3]);
    for limit in [1usize, 2, 3, 4, 5] {
        let mut sink = LimitedSink::new(limit);
        let r = write_value_ref(&mut sink, &ext);
        assert_eq!(r, Err(Error::InvalidDataWrite));
        assert_eq!(sink.calls, limit + 1);
    }
}
