use bincodec::value::{Payload, Primitive, PrimitiveShape, Shape, Value, VariantShape};
use bincodec::{BinDeserializer, BinSerializer};

fn bin_serialize(v: &Value) -> Vec<u8> {
    let mut s = BinSerializer::default();
    s.serialize_value(v).unwrap();
    s.into()
}

fn bin_deserialize(shape: &Shape, xs: &[u8]) -> Value {
    let mut d = BinDeserializer::from(xs);
    d.deserialize_value(shape).unwrap()
}

fn concat(xs: &[u8], ys: &[u8]) -> Vec<u8> {
    let mut out = xs.to_vec();
    out.extend_from_slice(ys);
    out
}

fn u32_value(v: u32) -> Value {
    Value::Primitive(Primitive::U32(v))
}

fn u64_value(v: u64) -> Value {
    Value::Primitive(Primitive::U64(v))
}

fn u32_shape() -> Shape {
    Shape::Primitive(PrimitiveShape::U32)
}

fn u64_shape() -> Shape {
    Shape::Primitive(PrimitiveShape::U64)
}

#[test]
pub fn test_unit() {
    let v = Value::Primitive(Primitive::Unit);
    let v_data: [u8; 0] = [];

    assert_eq!(bin_serialize(&v), v_data);

    assert_eq!(bin_deserialize(&Shape::Primitive(PrimitiveShape::Unit), &v_data), v);
}

#[test]
pub fn test_unit_struct() {
    let v_data: [u8; 0] = [];

    let mut s = BinSerializer::default();
    s.serialize_unit_struct("UnitStruct").unwrap();
    let bytes: Vec<u8> = s.into();
    assert_eq!(bytes, v_data);

    let mut d = BinDeserializer::from(&v_data[..]);
    assert_eq!(d.deserialize_unit_struct("UnitStruct"), Ok(()));
}

#[test]
pub fn test_u32() {
    let v = 0x1234_5678u32;

    assert_eq!(bin_serialize(&u32_value(v)), v.to_ne_bytes());

    assert_eq!(bin_deserialize(&u32_shape(), &v.to_ne_bytes()), u32_value(v));
}

#[test]
pub fn test_u32_newtype() {
    let v = 0x1234_5678u32;

    let mut s = BinSerializer::default();
    s.serialize_newtype_struct("Meters", &u32_value(v)).unwrap();
    let bytes: Vec<u8> = s.into();
    assert_eq!(bytes, v.to_ne_bytes());

    let data = v.to_ne_bytes();
    let mut d = BinDeserializer::from(&data[..]);
    let meters = d.deserialize_newtype_struct("Meters", &u32_shape()).unwrap();
    assert_eq!(meters, Value::NewType(Box::new(u32_value(v))));
}

#[test]
pub fn test_u32_tuple() {
    let v1 = 0x1234_5678u32;
    let v2 = 0xBABE_EBABu32;

    let ser_data = concat(&v1.to_ne_bytes(), &v2.to_ne_bytes());
    assert_eq!(ser_data.len(), 8);
    let tuple = Value::Tuple(vec![u32_value(v1), u32_value(v2)]);
    assert_eq!(bin_serialize(&tuple), ser_data);

    let shape = Shape::Tuple(vec![u32_shape(), u32_shape()]);
    assert_eq!(bin_deserialize(&shape, &ser_data), tuple);
}

#[test]
pub fn test_u32_struct() {
    let v = 0x1234_5678u32;

    let meters = Value::Struct(vec![u32_value(v)]);
    assert_eq!(bin_serialize(&meters), v.to_ne_bytes());

    let data = v.to_ne_bytes();
    let mut d = BinDeserializer::from(&data[..]);
    let back = d.deserialize_struct("Meters", &vec![u32_shape()]).unwrap();
    assert_eq!(back, Value::Struct(vec![u32_value(v)]));
}

#[test]
pub fn test_u32_tuple_struct() {
    let v1 = 0x1234_5678u32;
    let v2 = 0xBABE_EBABu32;

    let data_raw = Value::Tuple(vec![u32_value(v1), u32_value(v2)]);
    let data_ser = concat(&v1.to_ne_bytes(), &v2.to_ne_bytes());
    let mut s = BinSerializer::default();
    s.serialize_tuple_struct("Meters2", 2).unwrap();
    s.serialize_field(&u32_value(v1)).unwrap();
    s.serialize_field(&u32_value(v2)).unwrap();
    s.end().unwrap();
    let bytes: Vec<u8> = s.into();
    assert_eq!(bytes, data_ser);
    assert_eq!(bin_serialize(&data_raw), data_ser);

    let mut d = BinDeserializer::from(&data_ser[..]);
    let back = d.deserialize_tuple_struct("Meters2", &vec![u32_shape(), u32_shape()]).unwrap();
    assert_eq!(back, data_raw);
}

#[test]
pub fn test_enum() {
    let foo = Shape::Enum(vec![
        VariantShape::NewType(u32_shape()),
        VariantShape::NewType(u64_shape()),
        VariantShape::Unit,
        VariantShape::Tuple(vec![u32_shape(), u64_shape()]),
    ]);

    let v1 = 0x1234_5678u32;
    let v2 = 0xBABE_EBAB_3355_77BBu64;

    let constr1_raw = Value::Variant(0, Payload::NewType(Box::new(u32_value(v1))));
    let constr2_raw = Value::Variant(1, Payload::NewType(Box::new(u64_value(v2))));
    let constr3_raw = Value::Variant(2, Payload::Unit);
    let constr12_raw = Value::Variant(3, Payload::Tuple(vec![u32_value(v1), u64_value(v2)]));

    let constr1_ser = concat(&[0], &v1.to_ne_bytes());
    let constr2_ser = concat(&[1], &v2.to_ne_bytes());
    let constr3_ser = [2];
    let constr12_ser = concat(&[3], &concat(&v1.to_ne_bytes(), &v2.to_ne_bytes()));
    assert_eq!(constr1_ser.len(), 5);
    assert_eq!(constr2_ser.len(), 9);
    assert_eq!(constr12_ser.len(), 13);

    assert_eq!(bin_serialize(&constr1_raw), constr1_ser);
    assert_eq!(bin_serialize(&constr2_raw), constr2_ser);
    assert_eq!(bin_serialize(&constr3_raw), constr3_ser);
    assert_eq!(bin_serialize(&constr12_raw), constr12_ser);

    assert_eq!(bin_deserialize(&foo, &constr1_ser), constr1_raw);
    assert_eq!(bin_deserialize(&foo, &constr2_ser), constr2_raw);
    assert_eq!(bin_deserialize(&foo, &constr3_ser), constr3_raw);
    assert_eq!(bin_deserialize(&foo, &constr12_ser), constr12_raw);
}

#[test]
pub fn test_vec_u32() {
    let xs = Value::Sequence(vec![u32_value(1), u32_value(2), u32_value(3)]);

    let mut xs_ser = vec![0u8; 4 + 3 * 4];
    xs_ser[0..4].copy_from_slice(&3u32.to_ne_bytes());
    xs_ser[4..8].copy_from_slice(&1u32.to_ne_bytes());
    xs_ser[8..12].copy_from_slice(&2u32.to_ne_bytes());
    xs_ser[12..16].copy_from_slice(&3u32.to_ne_bytes());

    assert_eq!(bin_serialize(&xs), xs_ser);

    assert_eq!(bin_deserialize(&Shape::Sequence(Box::new(u32_shape())), &xs_ser), xs);
}

#[test]
pub fn test_slice_u32() {
    let xs = vec![u32_value(1), u32_value(2), u32_value(3)];
    let xs = &xs;

    let mut xs_ser = vec![0u8; 4 + 3 * 4];
    xs_ser[0..4].copy_from_slice(&3u32.to_ne_bytes());
    xs_ser[4..8].copy_from_slice(&1u32.to_ne_bytes());
    xs_ser[8..12].copy_from_slice(&2u32.to_ne_bytes());
    xs_ser[12..16].copy_from_slice(&3u32.to_ne_bytes());

    let mut s = BinSerializer::default();
    s.serialize_seq(Some(xs.len())).unwrap();
    for x in xs.iter() {
        s.serialize_element(x).unwrap();
    }
    s.end().unwrap();
    let bytes: Vec<u8> = s.into();
    assert_eq!(bytes, xs_ser);

    let mut d = BinDeserializer::from(&xs_ser[..]);
    let back = d.deserialize_seq(&u32_shape()).unwrap();
    assert_eq!(back, Value::Sequence(vec![u32_value(1), u32_value(2), u32_value(3)]));
}
