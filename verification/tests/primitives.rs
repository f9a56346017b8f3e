use bincodec::de::Error as DecodeError;
use bincodec::deserialize::utf8_byte_len;
use bincodec::wire::{
    i16_from_bits, i16_to_bits, i32_from_bits, i32_to_bits, i64_from_bits, i64_to_bits,
    i8_from_bits, i8_to_bits,
};
use bincodec::{BinDeserializer, BinSerializer};

fn written(s: BinSerializer) -> Vec<u8> {
    s.into()
}

#[test]
fn bool_is_one_byte() {
    let mut s = BinSerializer::default();
    s.serialize_bool(false).unwrap();
    s.serialize_bool(true).unwrap();
    assert_eq!(written(s), vec![0u8, 1u8]);
}

#[test]
fn bool_bytes_decode() {
    let data = [0u8, 1u8];
    let mut d = BinDeserializer::from(&data[..]);
    assert_eq!(d.deserialize_bool(), Ok(false));
    assert_eq!(d.deserialize_bool(), Ok(true));
    assert_eq!(d.deserialize_bool(), Err(DecodeError::InsufficientData));
}

#[test]
fn any_other_byte_is_no_bool() {
    for b in 2u8..=255 {
        let data = [b];
        let mut d = BinDeserializer::from(&data[..]);
        assert_eq!(d.deserialize_bool(), Err(DecodeError::MalformedBool));
        // the byte was not consumed
        assert_eq!(d.deserialize_u8(), Ok(b));
    }
}

#[test]
fn unsigned_integers_are_native_bytes() {
    let mut s = BinSerializer::default();
    s.serialize_u8(0xAB).unwrap();
    s.serialize_u16(0x1234).unwrap();
    s.serialize_u32(0x1234_5678).unwrap();
    s.serialize_u64(0x0123_4567_89AB_CDEF).unwrap();
    let mut expected = vec![0xABu8];
    expected.extend_from_slice(&0x1234u16.to_ne_bytes());
    expected.extend_from_slice(&0x1234_5678u32.to_ne_bytes());
    expected.extend_from_slice(&0x0123_4567_89AB_CDEFu64.to_ne_bytes());
    assert_eq!(written(s), expected);
}

#[test]
fn unsigned_integers_decode_from_native_bytes() {
    let mut data = vec![0xABu8];
    data.extend_from_slice(&0x1234u16.to_ne_bytes());
    data.extend_from_slice(&0x1234_5678u32.to_ne_bytes());
    data.extend_from_slice(&0x0123_4567_89AB_CDEFu64.to_ne_bytes());
    let mut d = BinDeserializer::from(&data[..]);
    assert_eq!(d.deserialize_u8(), Ok(0xAB));
    assert_eq!(d.deserialize_u16(), Ok(0x1234));
    assert_eq!(d.deserialize_u32(), Ok(0x1234_5678));
    assert_eq!(d.deserialize_u64(), Ok(0x0123_4567_89AB_CDEF));
    assert_eq!(d.deserialize_u8(), Err(DecodeError::InsufficientData));
}

#[test]
fn u32_scenario() {
    let v = 0x1234_5678u32;
    let mut s = BinSerializer::default();
    s.serialize_u32(v).unwrap();
    let bytes = written(s);
    assert_eq!(bytes.len(), 4);
    assert_eq!(bytes, v.to_ne_bytes());
    let mut d = BinDeserializer::from(&bytes[..]);
    assert_eq!(d.deserialize_u32(), Ok(0x1234_5678));
}

#[test]
fn signed_integers_are_twos_complement() {
    for v in [i8::MIN, -1, 0, 1, i8::MAX] {
        let mut s = BinSerializer::default();
        s.serialize_i8(v).unwrap();
        let bytes = written(s);
        assert_eq!(bytes, v.to_ne_bytes());
        let mut d = BinDeserializer::from(&bytes[..]);
        assert_eq!(d.deserialize_i8(), Ok(v));
    }
    for v in [i16::MIN, -1, 0, 1, i16::MAX] {
        let mut s = BinSerializer::default();
        s.serialize_i16(v).unwrap();
        let bytes = written(s);
        assert_eq!(bytes, v.to_ne_bytes());
        let mut d = BinDeserializer::from(&bytes[..]);
        assert_eq!(d.deserialize_i16(), Ok(v));
    }
    for v in [i32::MIN, -1, 0, 1, i32::MAX] {
        let mut s = BinSerializer::default();
        s.serialize_i32(v).unwrap();
        let bytes = written(s);
        assert_eq!(bytes, v.to_ne_bytes());
        let mut d = BinDeserializer::from(&bytes[..]);
        assert_eq!(d.deserialize_i32(), Ok(v));
    }
    for v in [i64::MIN, -1, 0, 1, i64::MAX] {
        let mut s = BinSerializer::default();
        s.serialize_i64(v).unwrap();
        let bytes = written(s);
        assert_eq!(bytes, v.to_ne_bytes());
        let mut d = BinDeserializer::from(&bytes[..]);
        assert_eq!(d.deserialize_i64(), Ok(v));
    }
}

#[test]
fn bits_of_signed_integers() {
    assert_eq!(i8_to_bits(-1), 0xFF);
    assert_eq!(i8_to_bits(i8::MIN), 0x80);
    assert_eq!(i8_from_bits(0x80), i8::MIN);
    assert_eq!(i16_to_bits(-2), 0xFFFE);
    assert_eq!(i16_from_bits(0xFFFE), -2);
    assert_eq!(i32_to_bits(i32::MIN), 0x8000_0000);
    assert_eq!(i32_from_bits(0xFFFF_FFFF), -1);
    assert_eq!(i64_to_bits(-1), u64::MAX);
    assert_eq!(i64_from_bits(0x8000_0000_0000_0000), i64::MIN);
    assert_eq!(i64_from_bits(5), 5);
}

#[test]
fn unsigned_extremes_round_trip() {
    for v in [u16::MIN, 1, u16::MAX] {
        let mut s = BinSerializer::default();
        s.serialize_u16(v).unwrap();
        let bytes = written(s);
        let mut d = BinDeserializer::from(&bytes[..]);
        assert_eq!(d.deserialize_u16(), Ok(v));
    }
    for v in [u32::MIN, 1, u32::MAX] {
        let mut s = BinSerializer::default();
        s.serialize_u32(v).unwrap();
        let bytes = written(s);
        let mut d = BinDeserializer::from(&bytes[..]);
        assert_eq!(d.deserialize_u32(), Ok(v));
    }
    for v in [u64::MIN, 1, u64::MAX] {
        let mut s = BinSerializer::default();
        s.serialize_u64(v).unwrap();
        let bytes = written(s);
        let mut d = BinDeserializer::from(&bytes[..]);
        assert_eq!(d.deserialize_u64(), Ok(v));
    }
}

#[test]
fn floats_travel_as_their_bits() {
    for v in [0.0f32, -0.0, 1.5, f32::INFINITY, f32::NEG_INFINITY, f32::NAN, f32::MIN, f32::MAX] {
        let mut s = BinSerializer::default();
        s.serialize_f32(v.to_bits()).unwrap();
        let bytes = written(s);
        assert_eq!(bytes, v.to_ne_bytes());
        let mut d = BinDeserializer::from(&bytes[..]);
        let back = f32::from_bits(d.deserialize_f32().unwrap());
        assert_eq!(back.to_bits(), v.to_bits());
    }
    for v in [0.0f64, -0.0, 1.5, f64::INFINITY, f64::NEG_INFINITY, f64::NAN, f64::MIN, f64::MAX] {
        let mut s = BinSerializer::default();
        s.serialize_f64(v.to_bits()).unwrap();
        let bytes = written(s);
        assert_eq!(bytes, v.to_ne_bytes());
        let mut d = BinDeserializer::from(&bytes[..]);
        let back = f64::from_bits(d.deserialize_f64().unwrap());
        assert_eq!(back.to_bits(), v.to_bits());
    }
}

#[test]
fn char_is_its_utf8_without_length() {
    let mut s = BinSerializer::default();
    s.serialize_char('a').unwrap();
    s.serialize_char('\u{e9}').unwrap();
    s.serialize_char('\u{20ac}').unwrap();
    s.serialize_char('\u{1f600}').unwrap();
    assert_eq!(
        written(s),
        vec![0x61, 0xC3, 0xA9, 0xE2, 0x82, 0xAC, 0xF0, 0x9F, 0x98, 0x80]
    );
}

#[test]
fn chars_decode_by_their_leading_byte() {
    let data = [0x61u8, 0xC3, 0xA9, 0xE2, 0x82, 0xAC, 0xF0, 0x9F, 0x98, 0x80];
    let mut d = BinDeserializer::from(&data[..]);
    assert_eq!(d.deserialize_char(), Ok('a'));
    assert_eq!(d.deserialize_char(), Ok('\u{e9}'));
    assert_eq!(d.deserialize_char(), Ok('\u{20ac}'));
    assert_eq!(d.deserialize_char(), Ok('\u{1f600}'));
    assert_eq!(d.deserialize_char(), Err(DecodeError::InsufficientData));
}

#[test]
fn char_extremes_round_trip() {
    for c in ['\0', '\u{7f}', '\u{80}', '\u{7ff}', '\u{800}', '\u{d7ff}', '\u{e000}', '\u{ffff}',
        '\u{10000}', '\u{10ffff}']
    {
        let mut s = BinSerializer::default();
        s.serialize_char(c).unwrap();
        let bytes = written(s);
        assert_eq!(bytes.len(), c.len_utf8());
        let mut d = BinDeserializer::from(&bytes[..]);
        assert_eq!(d.deserialize_char(), Ok(c));
    }
}

#[test]
fn malformed_chars() {
    // a continuation byte cannot lead
    let data = [0x80u8];
    let mut d = BinDeserializer::from(&data[..]);
    assert_eq!(d.deserialize_char(), Err(DecodeError::MalformedUTF8));
    // nor can 0xFF
    let data = [0xFFu8, 0, 0, 0];
    let mut d = BinDeserializer::from(&data[..]);
    assert_eq!(d.deserialize_char(), Err(DecodeError::MalformedUTF8));
    // a leading byte of two with no continuation behind it
    let data = [0xC3u8, 0x41];
    let mut d = BinDeserializer::from(&data[..]);
    assert_eq!(d.deserialize_char(), Err(DecodeError::MalformedUTF8));
    assert_eq!(d.deserialize_u8(), Ok(0xC3));
    // a surrogate
    let data = [0xEDu8, 0xA0, 0x80];
    let mut d = BinDeserializer::from(&data[..]);
    assert_eq!(d.deserialize_char(), Err(DecodeError::MalformedUTF8));
    // an overlong encoding
    let data = [0xC0u8, 0x80];
    let mut d = BinDeserializer::from(&data[..]);
    assert_eq!(d.deserialize_char(), Err(DecodeError::MalformedUTF8));
    // cut short
    let data = [0xE2u8, 0x82];
    let mut d = BinDeserializer::from(&data[..]);
    assert_eq!(d.deserialize_char(), Err(DecodeError::InsufficientData));
}

#[test]
fn width_from_leading_byte() {
    assert_eq!(utf8_byte_len(0x00), Some(1));
    assert_eq!(utf8_byte_len(0x7F), Some(1));
    assert_eq!(utf8_byte_len(0x80), None);
    assert_eq!(utf8_byte_len(0xBF), None);
    assert_eq!(utf8_byte_len(0xC0), Some(2));
    assert_eq!(utf8_byte_len(0xDF), Some(2));
    assert_eq!(utf8_byte_len(0xE0), Some(3));
    assert_eq!(utf8_byte_len(0xEF), Some(3));
    assert_eq!(utf8_byte_len(0xF0), Some(4));
    assert_eq!(utf8_byte_len(0xF7), Some(4));
    assert_eq!(utf8_byte_len(0xF8), None);
    assert_eq!(utf8_byte_len(0xFF), None);
}

#[test]
fn str_has_a_u32_length() {
    let mut s = BinSerializer::default();
    s.serialize_str("h\u{e9}llo").unwrap();
    let mut expected = 6u32.to_ne_bytes().to_vec();
    expected.extend_from_slice("h\u{e9}llo".as_bytes());
    assert_eq!(written(s), expected);

    let mut s = BinSerializer::default();
    s.serialize_str("").unwrap();
    assert_eq!(written(s), 0u32.to_ne_bytes());
}

#[test]
fn str_decodes_borrowed_and_owned() {
    let mut data = 6u32.to_ne_bytes().to_vec();
    data.extend_from_slice("h\u{e9}llo".as_bytes());
    data.push(7);
    let mut d = BinDeserializer::from(&data[..]);
    assert_eq!(d.deserialize_str(), Ok("h\u{e9}llo"));
    assert_eq!(d.deserialize_u8(), Ok(7));
    let mut d = BinDeserializer::from(&data[..]);
    assert_eq!(d.deserialize_string(), Ok(String::from("h\u{e9}llo")));
    assert_eq!(d.deserialize_u8(), Ok(7));

    let empty = 0u32.to_ne_bytes();
    let mut d = BinDeserializer::from(&empty[..]);
    assert_eq!(d.deserialize_str(), Ok(""));
}

#[test]
fn malformed_and_short_strings() {
    let mut data = 2u32.to_ne_bytes().to_vec();
    data.extend_from_slice(&[0xFF, 0xFE]);
    let mut d = BinDeserializer::from(&data[..]);
    assert_eq!(d.deserialize_str(), Err(DecodeError::MalformedUTF8));
    // the length was consumed, the payload was not
    assert_eq!(d.deserialize_u8(), Ok(0xFF));
    let mut d = BinDeserializer::from(&data[..]);
    assert_eq!(d.deserialize_string(), Err(DecodeError::MalformedUTF8));

    let mut data = 5u32.to_ne_bytes().to_vec();
    data.extend_from_slice(b"abc");
    let mut d = BinDeserializer::from(&data[..]);
    assert_eq!(d.deserialize_str(), Err(DecodeError::InsufficientData));
    assert_eq!(d.deserialize_u8(), Ok(b'a'));

    let data = [1u8, 0];
    let mut d = BinDeserializer::from(&data[..]);
    assert_eq!(d.deserialize_str(), Err(DecodeError::InsufficientData));
    assert_eq!(d.deserialize_u8(), Ok(1));
}

#[test]
fn bytes_have_a_u64_length() {
    let mut s = BinSerializer::default();
    s.serialize_bytes(&[9, 8, 7]).unwrap();
    let mut expected = 3u64.to_ne_bytes().to_vec();
    expected.extend_from_slice(&[9, 8, 7]);
    assert_eq!(written(s), expected);

    let mut s = BinSerializer::default();
    s.serialize_bytes(&[]).unwrap();
    assert_eq!(written(s), 0u64.to_ne_bytes());
}

#[test]
fn bytes_decode_borrowed_and_owned() {
    let mut data = 3u64.to_ne_bytes().to_vec();
    data.extend_from_slice(&[9, 8, 7, 6]);
    let mut d = BinDeserializer::from(&data[..]);
    assert_eq!(d.deserialize_bytes(), Ok(&[9u8, 8, 7][..]));
    assert_eq!(d.deserialize_u8(), Ok(6));
    let mut d = BinDeserializer::from(&data[..]);
    assert_eq!(d.deserialize_byte_buf(), Ok(vec![9u8, 8, 7]));

    let data = u64::MAX.to_ne_bytes();
    let mut d = BinDeserializer::from(&data[..]);
    assert_eq!(d.deserialize_bytes(), Err(DecodeError::InsufficientData));
    assert_eq!(d.deserialize_u8(), Err(DecodeError::InsufficientData));
}

#[test]
fn option_tags() {
    let mut s = BinSerializer::default();
    s.serialize_none().unwrap();
    s.serialize_option_tag(true).unwrap();
    s.serialize_option_tag(false).unwrap();
    assert_eq!(written(s), vec![0u8, 1, 0]);

    let data = [0u8, 1, 2];
    let mut d = BinDeserializer::from(&data[..]);
    assert_eq!(d.deserialize_option_tag(), Ok(false));
    assert_eq!(d.deserialize_option_tag(), Ok(true));
    assert_eq!(d.deserialize_option_tag(), Err(DecodeError::MalformedOption));
    assert_eq!(d.deserialize_u8(), Ok(2));
    assert_eq!(d.deserialize_option_tag(), Err(DecodeError::InsufficientData));
}

#[test]
fn units_take_no_bytes() {
    let mut s = BinSerializer::default();
    s.serialize_unit().unwrap();
    s.serialize_unit_struct("Nothing").unwrap();
    s.serialize_tuple(3).unwrap();
    s.serialize_tuple_struct("Pair", 2).unwrap();
    s.serialize_struct("Point", 2).unwrap();
    s.end().unwrap();
    assert_eq!(written(s), Vec::<u8>::new());

    let mut d = BinDeserializer::default();
    assert_eq!(d.deserialize_unit(), Ok(()));
    assert_eq!(d.deserialize_unit_struct("Nothing"), Ok(()));
    assert_eq!(d.deserialize_u8(), Err(DecodeError::InsufficientData));
}

#[test]
fn cursor_peeks_and_skips() {
    let data = [1u8, 2, 3, 4, 5];
    let mut d = BinDeserializer::from(&data[..]);
    assert_eq!(d.peek_u8(), Ok(1));
    assert_eq!(d.peek_u8(), Ok(1));
    assert_eq!(d.peek_u8_n::<2>(), Ok(&[1u8, 2][..]));
    assert_eq!(d.peek_u8_nd(5), Ok(&[1u8, 2, 3, 4, 5][..]));
    assert_eq!(d.peek_u8_nd(6), Err(DecodeError::InsufficientData));
    assert_eq!(d.peek_u8_n::<6>(), Err(DecodeError::InsufficientData));
    d.skip_unchecked(3);
    assert_eq!(d.peek_u8(), Ok(4));
    assert_eq!(d.peek_u8_nd(0), Ok(&[][..]));
    d.skip_unchecked(2);
    assert_eq!(d.peek_u8(), Err(DecodeError::InsufficientData));
    d.skip_unchecked(0);
    assert_eq!(d.peek_u8_nd(0), Ok(&[][..]));
}

#[test]
fn lengths_and_identifiers() {
    let mut data = 7u32.to_ne_bytes().to_vec();
    data.push(200);
    let mut d = BinDeserializer::from(&data[..]);
    assert_eq!(d.deserialize_len(), Ok(7));
    assert_eq!(d.deserialize_identifier(), Ok(200));
    assert_eq!(d.deserialize_len(), Err(DecodeError::InsufficientData));
    assert_eq!(d.deserialize_identifier(), Err(DecodeError::InsufficientData));
}
