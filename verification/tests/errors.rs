use bincodec::de::Error as DecodeError;
use bincodec::ser::Error as EncodeError;
use bincodec::value::{Payload, Primitive, PrimitiveShape, Shape, Value, VariantShape};
use bincodec::{deserialize, serialize, BinDeserializer, BinSerializer};

fn written(s: BinSerializer) -> Vec<u8> {
    s.into()
}

#[test]
fn sequence_of_unknown_length_is_refused() {
    let mut s = BinSerializer::default();
    s.serialize_u8(9).unwrap();
    assert_eq!(s.serialize_seq(None), Err(EncodeError::SequenceLengthUnknown));
    assert_eq!(written(s), vec![9u8]);
}

#[test]
fn map_of_unknown_length_is_refused() {
    let mut s = BinSerializer::default();
    assert_eq!(s.serialize_map(None), Err(EncodeError::MapLengthUnknown));
    assert_eq!(written(s), Vec::<u8>::new());
}

#[test]
fn sequence_that_is_too_long_is_refused_before_any_element() {
    let too_long = u32::MAX as usize + 1;
    let mut s = BinSerializer::default();
    s.serialize_u8(9).unwrap();
    assert_eq!(s.serialize_seq(Some(too_long)), Err(EncodeError::SequenceTooLong));
    assert_eq!(written(s), vec![9u8]);

    let mut s = BinSerializer::default();
    s.serialize_seq(Some(u32::MAX as usize)).unwrap();
    assert_eq!(written(s), u32::MAX.to_ne_bytes());
}

#[test]
fn map_that_is_too_long_is_refused() {
    let too_long = u32::MAX as usize + 1;
    let mut s = BinSerializer::default();
    assert_eq!(s.serialize_map(Some(too_long)), Err(EncodeError::MapTooLong));
    assert_eq!(written(s), Vec::<u8>::new());

    let mut s = BinSerializer::default();
    s.serialize_map(Some(2)).unwrap();
    assert_eq!(written(s), 2u32.to_ne_bytes());
}

#[test]
fn variant_index_above_255_is_refused() {
    let unit = Value::Primitive(Primitive::Unit);
    let mut s = BinSerializer::default();
    assert_eq!(s.serialize_unit_variant("E", 256, "V"), Err(EncodeError::VariantIndexTooLarge));
    assert_eq!(
        s.serialize_newtype_variant("E", 256, "V", &unit),
        Err(EncodeError::VariantIndexTooLarge)
    );
    assert_eq!(s.serialize_tuple_variant("E", 300, "V", 2), Err(EncodeError::VariantIndexTooLarge));
    assert_eq!(
        s.serialize_struct_variant("E", u32::MAX, "V", 2),
        Err(EncodeError::VariantIndexTooLarge)
    );
    assert_eq!(written(s), Vec::<u8>::new());

    assert_eq!(
        serialize(&Value::Variant(256, Payload::Unit)),
        Err(EncodeError::VariantIndexTooLarge)
    );

    let mut s = BinSerializer::default();
    s.serialize_unit_variant("E", 255, "V").unwrap();
    s.serialize_tuple_variant("E", 7, "V", 2).unwrap();
    s.serialize_struct_variant("E", 0, "V", 2).unwrap();
    assert_eq!(written(s), vec![255u8, 7, 0]);
}

#[test]
fn bytes_written_before_an_error_stay() {
    let v = Value::Tuple(vec![
        Value::Primitive(Primitive::U8(1)),
        Value::Variant(1000, Payload::Unit),
        Value::Primitive(Primitive::U8(2)),
    ]);
    let mut s = BinSerializer::default();
    assert_eq!(s.serialize_value(&v), Err(EncodeError::VariantIndexTooLarge));
    assert_eq!(written(s), vec![1u8]);
}

#[test]
fn third_variant_without_payload_is_one_byte() {
    let mut s = BinSerializer::default();
    s.serialize_unit_variant("Foo", 2, "Constr3").unwrap();
    assert_eq!(written(s), vec![0x02u8]);

    let shape = Shape::Enum(vec![
        VariantShape::NewType(Shape::Primitive(PrimitiveShape::U32)),
        VariantShape::NewType(Shape::Primitive(PrimitiveShape::U64)),
        VariantShape::Unit,
    ]);
    assert_eq!(deserialize(&shape, &[0x02]), Ok(Value::Variant(2, Payload::Unit)));
}

#[test]
fn tag_that_names_no_variant_is_refused() {
    let shape = Shape::Enum(vec![VariantShape::Unit, VariantShape::Unit]);
    assert_eq!(deserialize(&shape, &[1]), Ok(Value::Variant(1, Payload::Unit)));
    assert_eq!(deserialize(&shape, &[2]), Err(DecodeError::UnknownVariant));
    assert_eq!(deserialize(&shape, &[255]), Err(DecodeError::UnknownVariant));
    assert_eq!(deserialize(&shape, &[]), Err(DecodeError::InsufficientData));
    let empty = Shape::Enum(vec![]);
    assert_eq!(deserialize(&empty, &[0]), Err(DecodeError::UnknownVariant));

    let data = [9u8, 4];
    let mut d = BinDeserializer::from(&data[..]);
    assert_eq!(
        d.deserialize_enum("E", &vec![VariantShape::Unit]),
        Err(DecodeError::UnknownVariant)
    );
    // the tag was read
    assert_eq!(d.deserialize_u8(), Ok(4));
}

#[test]
fn option_tag_two_is_malformed() {
    let shape = Shape::Optional(Box::new(Shape::Primitive(PrimitiveShape::U8)));
    assert_eq!(deserialize(&shape, &[0x02]), Err(DecodeError::MalformedOption));
    assert_eq!(deserialize(&shape, &[0x02, 1]), Err(DecodeError::MalformedOption));
    assert_eq!(deserialize(&shape, &[0x00]), Ok(Value::Absent));
    assert_eq!(
        deserialize(&shape, &[0x01, 7]),
        Ok(Value::Present(Box::new(Value::Primitive(Primitive::U8(7)))))
    );
    assert_eq!(deserialize(&shape, &[0x01]), Err(DecodeError::InsufficientData));
}

#[test]
fn decoding_without_a_shape_is_refused() {
    let mut d = BinDeserializer::default();
    assert_eq!(d.deserialize_any(), Err(DecodeError::UnsupportedSelfDescribing));
    assert_eq!(d.deserialize_ignored_any(), Err(DecodeError::UnsupportedSelfDescribing));

    let data = [1u8, 2, 3];
    let mut d = BinDeserializer::from(&data[..]);
    assert_eq!(d.deserialize_any(), Err(DecodeError::UnsupportedSelfDescribing));
    assert_eq!(d.deserialize_ignored_any(), Err(DecodeError::UnsupportedSelfDescribing));
    // nothing was read
    assert_eq!(d.deserialize_u8(), Ok(1));
}

#[test]
fn malformed_bytes_inside_a_value_abort_it() {
    let shape = Shape::Sequence(Box::new(Shape::Primitive(PrimitiveShape::Bool)));
    let mut data = 3u32.to_ne_bytes().to_vec();
    data.extend_from_slice(&[1, 7, 0]);
    assert_eq!(deserialize(&shape, &data), Err(DecodeError::MalformedBool));

    let shape = Shape::Tuple(vec![Shape::Primitive(PrimitiveShape::U8), Shape::Str]);
    let mut data = vec![5u8];
    data.extend_from_slice(&1u32.to_ne_bytes());
    data.push(0x80);
    assert_eq!(deserialize(&shape, &data), Err(DecodeError::MalformedUTF8));
}

#[test]
fn encode_errors_as_text() {
    assert_eq!(EncodeError::StringTooLong.to_string(), "StringTooLong");
    assert_eq!(EncodeError::MapTooLong.to_string(), "MapTooLong");
    assert_eq!(EncodeError::ByteBufferTooLong.to_string(), "ByteBufferTooLong");
    assert_eq!(EncodeError::VariantIndexTooLarge.to_string(), "VariantIndexTooLarge");
    assert_eq!(EncodeError::SequenceTooLong.to_string(), "SequenceTooLong");
    assert_eq!(EncodeError::SequenceLengthUnknown.to_string(), "SequenceLengthUnknown");
    assert_eq!(EncodeError::MapLengthUnknown.to_string(), "MapLengthUnknown");
    assert_eq!(EncodeError::Custom(String::from("no luck")).to_string(), "no luck");
    assert_eq!(EncodeError::custom("no luck"), EncodeError::Custom(String::from("no luck")));
}

#[test]
fn decode_errors_as_text() {
    assert_eq!(DecodeError::UnsupportedSelfDescribing.to_string(), "UnsupportedSelfDescribing");
    assert_eq!(DecodeError::MalformedBool.to_string(), "MalformedBool");
    assert_eq!(DecodeError::MalformedUTF8.to_string(), "MalformedUTF8");
    assert_eq!(DecodeError::MalformedOption.to_string(), "MalformedOption");
    assert_eq!(DecodeError::InsufficientData.to_string(), "InsufficientData");
    assert_eq!(DecodeError::UnknownSequenceLength.to_string(), "UnknownSequenceLength");
    assert_eq!(DecodeError::UnknownVariant.to_string(), "UnknownVariant");
    assert_eq!(DecodeError::Custom(String::from("bad")).to_string(), "bad");
    assert_eq!(DecodeError::custom("bad"), DecodeError::Custom(String::from("bad")));
}
