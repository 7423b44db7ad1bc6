use colquery::codec::{BasicType, EncodingType, IntegerOffsetCodec};
use colquery::column::{Column, ColumnData, EncodedVals, IntegerColumn};

fn encoding_of(c: &Column) -> EncodingType {
    match &c.data {
        ColumnData::Encoded(e, codec) => {
            let w = codec.encoding_type();
            match e {
                EncodedVals::B8(_) => assert_eq!(w, EncodingType::U8),
                EncodedVals::B16(_) => assert_eq!(w, EncodingType::U16),
                EncodedVals::B32(_) => assert_eq!(w, EncodingType::U32),
            }
            w
        }
        _ => EncodingType::I64,
    }
}

#[test]
fn codec_round_trip_in_domain() {
    let c = IntegerOffsetCodec::new(10, EncodingType::U8);
    for v in 10..=265i64 {
        let e = c.encode_int(v).expect("in domain");
        assert_eq!(e + 10, v);
    }
    assert_eq!(c.encode_int(9), None);
    assert_eq!(c.encode_int(266), None);
}

#[test]
fn codec_rejects_out_of_domain_literal() {
    let c = IntegerOffsetCodec::new(-5, EncodingType::U16);
    assert_eq!(c.encode_int(-6), None);
    assert_eq!(c.encode_int(-5), Some(0));
    assert_eq!(c.encode_int(65530), Some(65535));
    assert_eq!(c.encode_int(65531), None);
}

#[test]
fn adaptive_width_boundaries() {
    let mk = |min: i64, max: i64| {
        let vals: Vec<i64> = vec![min, max];
        IntegerColumn::new_boxed("c", vals, min, max)
    };
    assert_eq!(encoding_of(&mk(0, 255)), EncodingType::U8);
    assert_eq!(encoding_of(&mk(0, 256)), EncodingType::U16);
    assert_eq!(encoding_of(&mk(0, 65535)), EncodingType::U16);
    assert_eq!(encoding_of(&mk(0, 65536)), EncodingType::U32);
    assert_eq!(encoding_of(&mk(0, 4294967295)), EncodingType::U32);
    assert_eq!(encoding_of(&mk(0, 4294967296)), EncodingType::I64);
    // the width depends on the span, not the absolute values
    assert_eq!(encoding_of(&mk(1000, 1255)), EncodingType::U8);
    assert_eq!(encoding_of(&mk(-100, 155)), EncodingType::U8);
}

#[test]
fn factory_stores_offset_and_range() {
    let col = IntegerColumn::new_boxed("age", vec![10, 20, 30, 40], 10, 40);
    match &col.data {
        ColumnData::Encoded(EncodedVals::B8(raw), codec) => {
            assert_eq!(raw.clone(), vec![0u8, 10, 20, 30]);
            assert!(codec.is_order_preserving());
            assert!(codec.is_positive_integer());
            assert!(!codec.is_summation_preserving());
            assert_eq!(codec.decoded_type(), BasicType::Integer);
        }
        _ => panic!("expected an 8-bit encoded column"),
    }
    assert_eq!(col.range, Some((0, 30)));
}

#[test]
fn summation_preserving_iff_offset_zero() {
    let zero = IntegerOffsetCodec::new(0, EncodingType::U8);
    let shifted = IntegerOffsetCodec::new(3, EncodingType::U8);
    assert!(zero.is_summation_preserving());
    assert!(!shifted.is_summation_preserving());
}

#[test]
fn decode_range_adds_offset() {
    let c = IntegerOffsetCodec::new(100, EncodingType::U16);
    assert_eq!(c.decode_range((0, 30)), Some((100, 130)));
    let near_max = IntegerOffsetCodec::new(i64::MAX - 10, EncodingType::U16);
    assert_eq!(near_max.decode_range((0, 5)), Some((i64::MAX - 10, i64::MAX - 5)));
    assert_eq!(near_max.decode_range((0, 11)), None);
}
