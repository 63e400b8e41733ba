use rmpv::encode::write_value_ref_to_vec;
use rmpv::value::ValueRef;

#[test]
fn nil_single_byte() {
    assert_eq!(write_value_ref_to_vec(&ValueRef::Nil), vec![0xc0]);
}

#[test]
fn bool_exact_bytes() {
    assert_eq!(write_value_ref_to_vec(&ValueRef::Boolean(true)), vec![0xc3]);
    assert_eq!(write_value_ref_to_vec(&ValueRef::Boolean(false)), vec![0xc2]);
}

#[test]
fn fixstr_le_message() {
    let val = ValueRef::String(b"le message".to_vec());
    assert_eq!(
        write_value_ref_to_vec(&val),
        vec![0xaa, 0x6c, 0x65, 0x20, 0x6d, 0x65, 0x73, 0x73, 0x61, 0x67, 0x65]
    );
}

#[test]
fn uint_zero_fixint() {
    assert_eq!(write_value_ref_to_vec(&ValueRef::U64(0)), vec![0x00]);
}

#[test]
fn empty_array_and_map() {
    assert_eq!(write_value_ref_to_vec(&ValueRef::Array(vec![])), vec![0x90]);
    assert_eq!(write_value_ref_to_vec(&ValueRef::Dict(vec![])), vec![0x80]);
}

#[test]
fn uint_minimal_width() {
    assert_eq!(write_value_ref_to_vec(&ValueRef::U64(127)), vec![0x7f]);
    assert_eq!(write_value_ref_to_vec(&ValueRef::U64(128)), vec![0xcc, 0x80]);
}

#[test]
fn uint_boundaries() {
    assert_eq!(write_value_ref_to_vec(&ValueRef::U64(255)), vec![0xcc, 0xff]);
    assert_eq!(write_value_ref_to_vec(&ValueRef::U64(256)), vec![0xcd, 0x01, 0x00]);
    assert_eq!(write_value_ref_to_vec(&ValueRef::U64(65535)), vec![0xcd, 0xff, 0xff]);
    assert_eq!(
        write_value_ref_to_vec(&ValueRef::U64(65536)),
        vec![0xce, 0x00, 0x01, 0x00, 0x00]
    );
    assert_eq!(
        write_value_ref_to_vec(&ValueRef::U64(0xffff_ffff)),
        vec![0xce, 0xff, 0xff, 0xff, 0xff]
    );
    assert_eq!(
        write_value_ref_to_vec(&ValueRef::U64(0x1_0000_0000)),
        vec![0xcf, 0x00, 0x00, 0x00, 0x01, 0x00, 0x00, 0x00, 0x00]
    );
    assert_eq!(
        write_value_ref_to_vec(&ValueRef::U64(u64::MAX)),
        vec![0xcf, 0xff, 0xff, 0xff, 0xff, 0xff, 0xff, 0xff, 0xff]
    );
}

#[test]
fn sint_minimal_width() {
    assert_eq!(write_value_ref_to_vec(&ValueRef::I64(-1)), vec![0xff]);
    assert_eq!(write_value_ref_to_vec(&ValueRef::I64(-32)), vec![0xe0]);
    assert_eq!(write_value_ref_to_vec(&ValueRef::I64(-33)), vec![0xd0, 0xdf]);
    assert_eq!(write_value_ref_to_vec(&ValueRef::I64(-128)), vec![0xd0, 0x80]);
    assert_eq!(write_value_ref_to_vec(&ValueRef::I64(-129)), vec![0xd1, 0xff, 0x7f]);
    assert_eq!(write_value_ref_to_vec(&ValueRef::I64(-32768)), vec![0xd1, 0x80, 0x00]);
    assert_eq!(
        write_value_ref_to_vec(&ValueRef::I64(-32769)),
        vec![0xd2, 0xff, 0xff, 0x7f, 0xff]
    );
    assert_eq!(
        write_value_ref_to_vec(&ValueRef::I64(i64::MIN)),
        vec![0xd3, 0x80, 0x00, 0x00, 0x00, 0x00, 0x00, 0x00, 0x00]
    );
}

#[test]
fn sint_nonnegative_uses_unsigned_forms() {
    assert_eq!(write_value_ref_to_vec(&ValueRef::I64(5)), vec![0x05]);
    assert_eq!(write_value_ref_to_vec(&ValueRef::I64(300)), vec![0xcd, 0x01, 0x2c]);
    assert_eq!(
        write_value_ref_to_vec(&ValueRef::I64(i64::MAX)),
        vec![0xcf, 0x7f, 0xff, 0xff, 0xff, 0xff, 0xff, 0xff, 0xff]
    );
}

#[test]
fn float_bit_patterns() {
    // 1.0f32 is 0x3f80_0000; 1.0f64 is 0x3ff0_0000_0000_0000.
    assert_eq!(
        write_value_ref_to_vec(&ValueRef::F32(0x3f80_0000)),
        vec![0xca, 0x3f, 0x80, 0x00, 0x00]
    );
    assert_eq!(
        write_value_ref_to_vec(&ValueRef::F64(0x3ff0_0000_0000_0000)),
        vec![0xcb, 0x3f, 0xf0, 0x00, 0x00, 0x00, 0x00, 0x00, 0x00]
    );
}

#[test]
fn float_widths_stay_distinct() {
    let f32_bytes = write_value_ref_to_vec(&ValueRef::F32(0));
    let f64_bytes = write_value_ref_to_vec(&ValueRef::F64(0));
    assert_eq!(f32_bytes[0], 0xca);
    assert_eq!(f64_bytes[0], 0xcb);
    assert_eq!(f32_bytes.len(), 5);
    assert_eq!(f64_bytes.len(), 9);
}

#[test]
fn bin_length_prefixed() {
    assert_eq!(
        write_value_ref_to_vec(&ValueRef::Binary(vec![1, 2, 3])),
        vec![0xc4, 0x03, 0x01, 0x02, 0x03]
    );
    let long = vec![7u8; 256];
    let out = write_value_ref_to_vec(&ValueRef::Binary(long.clone()));
    assert_eq!(&out[..3], &[0xc5, 0x01, 0x00]);
    assert_eq!(&out[3..], &long[..]);
}

#[test]
fn str_width_boundaries() {
    let s31 = ValueRef::String(vec![b'x'; 31]);
    assert_eq!(write_value_ref_to_vec(&s31)[0], 0xbf);
    let s32 = ValueRef::String(vec![b'x'; 32]);
    assert_eq!(&write_value_ref_to_vec(&s32)[..2], &[0xd9, 32]);
    let s256 = ValueRef::String(vec![b'x'; 256]);
    assert_eq!(&write_value_ref_to_vec(&s256)[..3], &[0xda, 0x01, 0x00]);
}

#[test]
fn ext_tag_and_payload() {
    // Length 3 is no fixext size, so the ext8 form carries it explicitly.
    assert_eq!(
        write_value_ref_to_vec(&ValueRef::Ext(5, vec![0x01, 0x02, 0x03])),
        vec![0xc7, 0x03, 0x05, 0x01, 0x02, 0x03]
    );
}

#[test]
fn ext_fixext_forms() {
    assert_eq!(write_value_ref_to_vec(&ValueRef::Ext(1, vec![9])), vec![0xd4, 0x01, 0x09]);
    assert_eq!(
        write_value_ref_to_vec(&ValueRef::Ext(-2, vec![1, 2, 3, 4])),
        vec![0xd6, 0xfe, 0x01, 0x02, 0x03, 0x04]
    );
    assert_eq!(
        write_value_ref_to_vec(&ValueRef::Ext(0, vec![])),
        vec![0xc7, 0x00, 0x00]
    );
}

#[test]
fn array_width_boundaries() {
    let a15 = ValueRef::Array((0..15).map(ValueRef::U64).collect());
    let out15 = write_value_ref_to_vec(&a15);
    assert_eq!(out15[0], 0x9f);
    assert_eq!(out15.len(), 16);
    let a16 = ValueRef::Array((0..16).map(ValueRef::U64).collect());
    let out16 = write_value_ref_to_vec(&a16);
    assert_eq!(&out16[..3], &[0xdc, 0x00, 0x10]);
}

#[test]
fn map_width_boundaries() {
    let pairs: Vec<(ValueRef, ValueRef)> =
        (0..16).map(|i| (ValueRef::U64(i), ValueRef::Boolean(true))).collect();
    let out = write_value_ref_to_vec(&ValueRef::Dict(pairs));
    assert_eq!(&out[..3], &[0xde, 0x00, 0x10]);
}

#[test]
fn wide_length_prefixes() {
    let s = ValueRef::String(vec![b'x'; 65536]);
    assert_eq!(&write_value_ref_to_vec(&s)[..5], &[0xdb, 0x00, 0x01, 0x00, 0x00]);
    let b = ValueRef::Binary(vec![0u8; 65536]);
    assert_eq!(&write_value_ref_to_vec(&b)[..5], &[0xc6, 0x00, 0x01, 0x00, 0x00]);
    let a = ValueRef::Array((0..65536).map(|_| ValueRef::Nil).collect());
    let out = write_value_ref_to_vec(&a);
    assert_eq!(&out[..5], &[0xdd, 0x00, 0x01, 0x00, 0x00]);
    assert_eq!(out.len(), 5 + 65536);
    let pairs: Vec<(ValueRef, ValueRef)> =
        (0..65536).map(|_| (ValueRef::Nil, ValueRef::Nil)).collect();
    let m = ValueRef::Dict(pairs);
    assert_eq!(&write_value_ref_to_vec(&m)[..5], &[0xdf, 0x00, 0x01, 0x00, 0x00]);
}

#[test]
fn ext_wide_forms() {
    let e16 = ValueRef::Ext(9, vec![0u8; 300]);
    assert_eq!(&write_value_ref_to_vec(&e16)[..4], &[0xc8, 0x01, 0x2c, 0x09]);
    let e32 = ValueRef::Ext(-128, vec![0u8; 65536]);
    assert_eq!(
        &write_value_ref_to_vec(&e32)[..6],
        &[0xc9, 0x00, 0x01, 0x00, 0x00, 0x80]
    );
}
