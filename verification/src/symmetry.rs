//! Encoding and decoding are two sides of one format.
//!
//! What the encoder writes for a value, the decoder reads back as that
//! value. Of what the encoder writes, no shorter beginning is mistaken for a
//! value: decoding it fails for want of data. And what the decoder reads as
//! a value is what the encoder writes for that value, byte for byte.

use crate::deserialize::{
    done, lemma_read_each_in_bounds, lemma_read_n_in_bounds, lemma_read_pair_in_bounds,
    lemma_read_pairs_in_bounds, lemma_read_payload_in_bounds, lemma_read_value_in_bounds,
    read_bytes, read_each, read_n, read_option_tag, read_pair, read_pairs, read_payload,
    read_primitive, read_str, read_u8, read_value, utf8_width, Error,
};
use crate::serialize::{
    encodable, encoding, primitive_bytes, write_all, write_bytes, write_pairs, write_payload,
    write_str,
};
use crate::value::{
    all_conform, conforms, each_conforms, pairs_conform, payload_conforms, primitive_shape,
    PayloadView, Primitive, PrimitiveShape, Shape, ValueView, VariantShape,
};
use crate::wire::{
    lemma_i16_bits_of_value, lemma_i16_round_trip, lemma_i32_bits_of_value, lemma_i32_round_trip,
    lemma_i64_bits_of_value, lemma_i64_round_trip, lemma_i8_bits_of_value, lemma_i8_round_trip,
    lemma_u16_bytes_of_value, lemma_u16_round_trip, lemma_u32_bytes_of_value,
    lemma_u32_round_trip, lemma_u64_bytes_of_value, lemma_u64_round_trip, u16_value, u32_bytes,
    u32_value, u64_bytes, u64_value,
};
use vstd::prelude::*;
use vstd::utf8::{decode_utf8, encode_utf8, valid_utf8};

verus! {

/// The beginning of two runs of bytes in a row, as long as the first, is the
/// first; what follows it is the second.
pub proof fn lemma_split_concat(a: Seq<u8>, b: Seq<u8>)
    ensures
        (a + b).take(a.len() as int) == a,
        (a + b).skip(a.len() as int) == b,
        (a + b).len() == a.len() + b.len(),
{
    assert((a + b).take(a.len() as int) =~= a);
    assert((a + b).skip(a.len() as int) =~= b);
}

/// A beginning of two runs of bytes in a row: of the first, where it is no
/// longer than that; else the first and a beginning of the second.
pub proof fn lemma_take_concat(a: Seq<u8>, b: Seq<u8>, k: int)
    requires
        0 <= k <= a.len() + b.len(),
    ensures
        k <= a.len() ==> (a + b).take(k) == a.take(k),
        k >= a.len() ==> (a + b).take(k) == a + b.take(k - a.len()),
{
    if k <= a.len() {
        assert((a + b).take(k) =~= a.take(k));
    }
    if k >= a.len() {
        assert((a + b).take(k) =~= a + b.take(k - a.len()));
    }
}

/// Three runs of bytes in a row may be grouped either way.
pub proof fn lemma_concat_assoc(a: Seq<u8>, b: Seq<u8>, c: Seq<u8>)
    ensures
        (a + b) + c == a + (b + c),
{
    assert((a + b) + c =~= a + (b + c));
}

/// The encoding of a character: one to four bytes, of which the first says
/// how many they are, and which are valid UTF-8 for that character alone.
pub proof fn lemma_char_encoding(c: char)
    ensures
        1 <= encode_utf8(seq![c]).len() <= 4,
        utf8_width(encode_utf8(seq![c])[0]) is Some,
        utf8_width(encode_utf8(seq![c])[0])->0 == encode_utf8(seq![c]).len(),
        valid_utf8(encode_utf8(seq![c])),
        decode_utf8(encode_utf8(seq![c])) == seq![c],
{
    let chars = seq![c];
    let bytes = encode_utf8(chars);
    vstd::utf8::encode_utf8_first_scalar(chars);
    vstd::utf8::encode_utf8_valid_utf8(chars);
    vstd::utf8::encode_utf8_decode_utf8(chars);
    assert(chars.drop_first() =~= Seq::<char>::empty());
    assert(encode_utf8(chars.drop_first()) =~= Seq::<u8>::empty());
    assert(bytes =~= vstd::utf8::encode_scalar(c as u32));
}

/// Decoding what was written for a value of fixed layout, whatever follows
/// it, gives that value and stops behind it.
pub proof fn lemma_round_trip_primitive(p: Primitive, rest: Seq<u8>)
    ensures
        read_primitive(primitive_shape(p), primitive_bytes(p) + rest) == done(
            p,
            primitive_bytes(p).len(),
        ),
{
    let bytes = primitive_bytes(p);
    let input = bytes + rest;
    lemma_split_concat(bytes, rest);
    match p {
        Primitive::Bool(v) => {},
        Primitive::I8(v) => {
            lemma_i8_round_trip(v);
        },
        Primitive::I16(v) => {
            lemma_u16_round_trip(crate::wire::i16_bits(v));
            lemma_i16_round_trip(v);
        },
        Primitive::I32(v) => {
            lemma_u32_round_trip(crate::wire::i32_bits(v));
            lemma_i32_round_trip(v);
        },
        Primitive::I64(v) => {
            lemma_u64_round_trip(crate::wire::i64_bits(v));
            lemma_i64_round_trip(v);
        },
        Primitive::U8(v) => {},
        Primitive::U16(v) => {
            lemma_u16_round_trip(v);
        },
        Primitive::U32(v) => {
            lemma_u32_round_trip(v);
        },
        Primitive::U64(v) => {
            lemma_u64_round_trip(v);
        },
        Primitive::F32(v) => {
            lemma_u32_round_trip(v);
        },
        Primitive::F64(v) => {
            lemma_u64_round_trip(v);
        },
        Primitive::Char(c) => {
            lemma_char_encoding(c);
            assert(input[0] == bytes[0]);
        },
        Primitive::Unit => {},
    }
}

/// Decoding a beginning of what was written for a value of fixed layout,
/// shorter than all of it, fails for want of data.
pub proof fn lemma_truncated_primitive(p: Primitive, k: int)
    requires
        0 <= k < primitive_bytes(p).len(),
    ensures
        read_primitive(primitive_shape(p), primitive_bytes(p).take(k)).result == Err::<
            Primitive,
            Error,
        >(Error::InsufficientData),
{
    let bytes = primitive_bytes(p);
    match p {
        Primitive::I16(v) => {
            lemma_u16_round_trip(crate::wire::i16_bits(v));
        },
        Primitive::I32(v) => {
            lemma_u32_round_trip(crate::wire::i32_bits(v));
        },
        Primitive::I64(v) => {
            lemma_u64_round_trip(crate::wire::i64_bits(v));
        },
        Primitive::U16(v) => {
            lemma_u16_round_trip(v);
        },
        Primitive::U32(v) => {
            lemma_u32_round_trip(v);
        },
        Primitive::U64(v) => {
            lemma_u64_round_trip(v);
        },
        Primitive::F32(v) => {
            lemma_u32_round_trip(v);
        },
        Primitive::F64(v) => {
            lemma_u64_round_trip(v);
        },
        Primitive::Char(c) => {
            lemma_char_encoding(c);
            if k > 0 {
                assert(bytes.take(k)[0] == bytes[0]);
            }
        },
        _ => {},
    }
}

/// Decoding what was written for a string, whatever follows it, gives that
/// string and stops behind it.
pub proof fn lemma_round_trip_str(chars: Seq<char>, rest: Seq<u8>)
    requires
        write_str(chars).error is None,
    ensures
        read_str(write_str(chars).bytes + rest) == done(chars, write_str(chars).bytes.len()),
{
    let text = encode_utf8(chars);
    let head = u32_bytes(text.len() as u32);
    lemma_u32_round_trip(text.len() as u32);
    lemma_concat_assoc(head, text, rest);
    lemma_split_concat(head, text + rest);
    lemma_split_concat(text, rest);
    lemma_split_concat(head, text);
    vstd::utf8::encode_utf8_valid_utf8(chars);
    vstd::utf8::encode_utf8_decode_utf8(chars);
}

/// Decoding a beginning of what was written for a string, shorter than all
/// of it, fails for want of data.
pub proof fn lemma_truncated_str(chars: Seq<char>, k: int)
    requires
        write_str(chars).error is None,
        0 <= k < write_str(chars).bytes.len(),
    ensures
        read_str(write_str(chars).bytes.take(k)).result == Err::<Seq<char>, Error>(
            Error::InsufficientData,
        ),
{
    let text = encode_utf8(chars);
    let head = u32_bytes(text.len() as u32);
    lemma_u32_round_trip(text.len() as u32);
    lemma_split_concat(head, text);
    lemma_take_concat(head, text, k);
    if k >= 4 {
        lemma_split_concat(head, text.take(k - 4));
    }
}

/// Decoding what was written for a byte buffer, whatever follows it, gives
/// that buffer and stops behind it.
pub proof fn lemma_round_trip_bytes(data: Seq<u8>, rest: Seq<u8>)
    requires
        write_bytes(data).error is None,
    ensures
        read_bytes(write_bytes(data).bytes + rest) == done(data, write_bytes(data).bytes.len()),
{
    let head = u64_bytes(data.len() as u64);
    lemma_u64_round_trip(data.len() as u64);
    lemma_concat_assoc(head, data, rest);
    lemma_split_concat(head, data + rest);
    lemma_split_concat(data, rest);
    lemma_split_concat(head, data);
}

/// Decoding a beginning of what was written for a byte buffer, shorter than
/// all of it, fails for want of data.
pub proof fn lemma_truncated_bytes(data: Seq<u8>, k: int)
    requires
        write_bytes(data).error is None,
        0 <= k < write_bytes(data).bytes.len(),
    ensures
        read_bytes(write_bytes(data).bytes.take(k)).result == Err::<Seq<u8>, Error>(
            Error::InsufficientData,
        ),
{
    let head = u64_bytes(data.len() as u64);
    lemma_u64_round_trip(data.len() as u64);
    lemma_split_concat(head, data);
    lemma_take_concat(head, data, k);
    if k >= 8 {
        lemma_split_concat(head, data.take(k - 8));
    }
}

/// Decoding what was written for a value, whatever follows it, gives that
/// value and stops behind it.
pub proof fn lemma_round_trip_with_rest(v: ValueView, shape: Shape, rest: Seq<u8>)
    requires
        conforms(v, shape),
        encodable(v),
    ensures
        read_value(shape, encoding(v) + rest) == done(v, encoding(v).len()),
    decreases v, 0nat,
{
    let bytes = encoding(v);
    let input = bytes + rest;
    match v {
        ValueView::Primitive(p) => {
            lemma_round_trip_primitive(p, rest);
        },
        ValueView::Str(chars) => {
            lemma_round_trip_str(chars, rest);
        },
        ValueView::Bytes(data) => {
            lemma_round_trip_bytes(data, rest);
        },
        ValueView::Absent => {
            assert(input[0] == 0);
        },
        ValueView::Present(inner) => {
            let body = encoding(*inner);
            lemma_concat_assoc(seq![1u8], body, rest);
            lemma_split_concat(seq![1u8], body + rest);
            assert(input[0] == 1);
            lemma_round_trip_with_rest(*inner, *shape->Optional_0, rest);
        },
        ValueView::NewType(inner) => {
            lemma_round_trip_with_rest(*inner, *shape->NewType_0, rest);
        },
        ValueView::Sequence(items) => {
            let head = u32_bytes(items.len() as u32);
            let body = write_all(items).bytes;
            lemma_u32_round_trip(items.len() as u32);
            lemma_concat_assoc(head, body, rest);
            lemma_split_concat(head, body + rest);
            lemma_round_trip_all(items, *shape->Sequence_0, rest);
        },
        ValueView::Tuple(items) => {
            lemma_round_trip_each(items, shape->Tuple_0@, rest);
        },
        ValueView::Mapping(pairs) => {
            let head = u32_bytes(pairs.len() as u32);
            let body = write_pairs(pairs).bytes;
            lemma_u32_round_trip(pairs.len() as u32);
            lemma_concat_assoc(head, body, rest);
            lemma_split_concat(head, body + rest);
            lemma_round_trip_pairs(pairs, *shape->Mapping_0, rest);
        },
        ValueView::Struct(items) => {
            lemma_round_trip_each(items, shape->Struct_0@, rest);
        },
        ValueView::Variant(index, payload) => {
            let tag = seq![index as u8];
            let body = write_payload(payload).bytes;
            lemma_concat_assoc(tag, body, rest);
            lemma_split_concat(tag, body + rest);
            assert(input[0] == index as u8);
            lemma_round_trip_payload(payload, shape->Enum_0@[index as int], rest);
        },
    }
}

/// Decoding what was written for a run of values of one shape, whatever
/// follows it, gives those values and stops behind them.
pub proof fn lemma_round_trip_all(items: Seq<ValueView>, shape: Shape, rest: Seq<u8>)
    requires
        all_conform(items, shape),
        write_all(items).error is None,
    ensures
        read_n(shape, items.len(), write_all(items).bytes + rest) == done(
            items,
            write_all(items).bytes.len(),
        ),
    decreases items, 1nat,
{
    if items.len() == 0 {
        assert(items =~= Seq::<ValueView>::empty());
    } else {
        let first = encoding(items[0]);
        let tail = write_all(items.skip(1)).bytes;
        lemma_concat_assoc(first, tail, rest);
        lemma_split_concat(first, tail + rest);
        lemma_round_trip_with_rest(items[0], shape, tail + rest);
        lemma_round_trip_all(items.skip(1), shape, rest);
        assert(seq![items[0]] + items.skip(1) =~= items);
    }
}

/// Decoding what was written for values of given shapes, whatever follows
/// it, gives those values and stops behind them.
pub proof fn lemma_round_trip_each(items: Seq<ValueView>, shapes: Seq<Shape>, rest: Seq<u8>)
    requires
        each_conforms(items, shapes),
        write_all(items).error is None,
    ensures
        read_each(shapes, write_all(items).bytes + rest) == done(
            items,
            write_all(items).bytes.len(),
        ),
    decreases items, 1nat,
{
    if items.len() == 0 {
        assert(items =~= Seq::<ValueView>::empty());
    } else {
        let first = encoding(items[0]);
        let tail = write_all(items.skip(1)).bytes;
        lemma_concat_assoc(first, tail, rest);
        lemma_split_concat(first, tail + rest);
        lemma_round_trip_with_rest(items[0], shapes[0], tail + rest);
        lemma_round_trip_each(items.skip(1), shapes.skip(1), rest);
        assert(seq![items[0]] + items.skip(1) =~= items);
    }
}

/// Decoding what was written for the pairs of a map, whatever follows it,
/// gives those pairs and stops behind them.
pub proof fn lemma_round_trip_pairs(
    pairs: Seq<(ValueView, ValueView)>,
    entry: (Shape, Shape),
    rest: Seq<u8>,
)
    requires
        pairs_conform(pairs, entry),
        write_pairs(pairs).error is None,
    ensures
        read_pairs(entry, pairs.len(), write_pairs(pairs).bytes + rest) == done(
            pairs,
            write_pairs(pairs).bytes.len(),
        ),
    decreases pairs, 1nat,
{
    if pairs.len() == 0 {
        assert(pairs =~= Seq::<(ValueView, ValueView)>::empty());
    } else {
        let key = encoding(pairs[0].0);
        let value = encoding(pairs[0].1);
        let tail = write_pairs(pairs.skip(1)).bytes;
        lemma_concat_assoc(key + value, tail, rest);
        lemma_concat_assoc(key, value, tail + rest);
        lemma_split_concat(key, value + (tail + rest));
        lemma_split_concat(value, tail + rest);
        lemma_split_concat(key, value);
        lemma_round_trip_with_rest(pairs[0].0, entry.0, value + (tail + rest));
        lemma_round_trip_with_rest(pairs[0].1, entry.1, tail + rest);
        let input = write_pairs(pairs).bytes + rest;
        assert(read_pair(entry, input) == done(pairs[0], (key + value).len()));
        lemma_split_concat(key + value, tail + rest);
        lemma_round_trip_pairs(pairs.skip(1), entry, rest);
        assert(seq![pairs[0]] + pairs.skip(1) =~= pairs);
    }
}

/// Decoding what was written for the payload of a variant, whatever follows
/// it, gives that payload and stops behind it.
pub proof fn lemma_round_trip_payload(payload: PayloadView, variant: VariantShape, rest: Seq<u8>)
    requires
        payload_conforms(payload, variant),
        write_payload(payload).error is None,
    ensures
        read_payload(variant, write_payload(payload).bytes + rest) == done(
            payload,
            write_payload(payload).bytes.len(),
        ),
    decreases payload, 1nat,
{
    match payload {
        PayloadView::Unit => {},
        PayloadView::NewType(inner) => {
            lemma_round_trip_with_rest(*inner, variant->NewType_0, rest);
        },
        PayloadView::Tuple(items) => {
            lemma_round_trip_each(items, variant->Tuple_0@, rest);
        },
        PayloadView::Struct(items) => {
            lemma_round_trip_each(items, variant->Struct_0@, rest);
        },
    }
}

/// Decoding what was written for a value gives that value, and reads all
/// of it.
pub proof fn lemma_round_trip(v: ValueView, shape: Shape)
    requires
        conforms(v, shape),
        encodable(v),
    ensures
        read_value(shape, encoding(v)) == done(v, encoding(v).len()),
{
    lemma_round_trip_with_rest(v, shape, Seq::empty());
    assert(encoding(v) + Seq::<u8>::empty() =~= encoding(v));
}

/// Decoding a beginning of what was written for a value, shorter than all
/// of it, fails for want of data.
pub proof fn lemma_truncated(v: ValueView, shape: Shape, k: int)
    requires
        conforms(v, shape),
        encodable(v),
        0 <= k < encoding(v).len(),
    ensures
        read_value(shape, encoding(v).take(k)).result == Err::<ValueView, Error>(
            Error::InsufficientData,
        ),
    decreases v, 0nat,
{
    let bytes = encoding(v);
    let input = bytes.take(k);
    match v {
        ValueView::Primitive(p) => {
            lemma_truncated_primitive(p, k);
        },
        ValueView::Str(chars) => {
            lemma_truncated_str(chars, k);
        },
        ValueView::Bytes(data) => {
            lemma_truncated_bytes(data, k);
        },
        ValueView::Absent => {},
        ValueView::Present(inner) => {
            let body = encoding(*inner);
            lemma_take_concat(seq![1u8], body, k);
            if k >= 1 {
                lemma_split_concat(seq![1u8], body.take(k - 1));
                assert(input[0] == 1);
                lemma_truncated(*inner, *shape->Optional_0, k - 1);
            }
        },
        ValueView::NewType(inner) => {
            lemma_truncated(*inner, *shape->NewType_0, k);
        },
        ValueView::Sequence(items) => {
            let head = u32_bytes(items.len() as u32);
            let body = write_all(items).bytes;
            lemma_u32_round_trip(items.len() as u32);
            lemma_take_concat(head, body, k);
            if k >= 4 {
                lemma_split_concat(head, body.take(k - 4));
                lemma_truncated_all(items, *shape->Sequence_0, k - 4);
            }
        },
        ValueView::Tuple(items) => {
            lemma_truncated_each(items, shape->Tuple_0@, k);
        },
        ValueView::Mapping(pairs) => {
            let head = u32_bytes(pairs.len() as u32);
            let body = write_pairs(pairs).bytes;
            lemma_u32_round_trip(pairs.len() as u32);
            lemma_take_concat(head, body, k);
            if k >= 4 {
                lemma_split_concat(head, body.take(k - 4));
                lemma_truncated_pairs(pairs, *shape->Mapping_0, k - 4);
            }
        },
        ValueView::Struct(items) => {
            lemma_truncated_each(items, shape->Struct_0@, k);
        },
        ValueView::Variant(index, payload) => {
            let tag = seq![index as u8];
            let body = write_payload(payload).bytes;
            lemma_take_concat(tag, body, k);
            if k >= 1 {
                lemma_split_concat(tag, body.take(k - 1));
                assert(input[0] == index as u8);
                lemma_truncated_payload(payload, shape->Enum_0@[index as int], k - 1);
            }
        },
    }
}

/// Decoding a beginning of what was written for a run of values of one
/// shape, shorter than all of it, fails for want of data.
pub proof fn lemma_truncated_all(items: Seq<ValueView>, shape: Shape, k: int)
    requires
        all_conform(items, shape),
        write_all(items).error is None,
        0 <= k < write_all(items).bytes.len(),
    ensures
        read_n(shape, items.len(), write_all(items).bytes.take(k)).result == Err::<
            Seq<ValueView>,
            Error,
        >(Error::InsufficientData),
    decreases items, 1nat,
{
    if items.len() > 0 {
        let first = encoding(items[0]);
        let tail = write_all(items.skip(1)).bytes;
        lemma_take_concat(first, tail, k);
        if k < first.len() {
            lemma_truncated(items[0], shape, k);
        } else {
            let rest = tail.take(k - first.len());
            lemma_split_concat(first, rest);
            lemma_round_trip_with_rest(items[0], shape, rest);
            lemma_truncated_all(items.skip(1), shape, k - first.len());
        }
    }
}

/// Decoding a beginning of what was written for values of given shapes,
/// shorter than all of it, fails for want of data.
pub proof fn lemma_truncated_each(items: Seq<ValueView>, shapes: Seq<Shape>, k: int)
    requires
        each_conforms(items, shapes),
        write_all(items).error is None,
        0 <= k < write_all(items).bytes.len(),
    ensures
        read_each(shapes, write_all(items).bytes.take(k)).result == Err::<Seq<ValueView>, Error>(
            Error::InsufficientData,
        ),
    decreases items, 1nat,
{
    if items.len() > 0 {
        let first = encoding(items[0]);
        let tail = write_all(items.skip(1)).bytes;
        lemma_take_concat(first, tail, k);
        if k < first.len() {
            lemma_truncated(items[0], shapes[0], k);
        } else {
            let rest = tail.take(k - first.len());
            lemma_split_concat(first, rest);
            lemma_round_trip_with_rest(items[0], shapes[0], rest);
            lemma_truncated_each(items.skip(1), shapes.skip(1), k - first.len());
        }
    }
}

/// Decoding a beginning of what was written for the pairs of a map,
/// shorter than all of it, fails for want of data.
pub proof fn lemma_truncated_pairs(
    pairs: Seq<(ValueView, ValueView)>,
    entry: (Shape, Shape),
    k: int,
)
    requires
        pairs_conform(pairs, entry),
        write_pairs(pairs).error is None,
        0 <= k < write_pairs(pairs).bytes.len(),
    ensures
        read_pairs(entry, pairs.len(), write_pairs(pairs).bytes.take(k)).result == Err::<
            Seq<(ValueView, ValueView)>,
            Error,
        >(Error::InsufficientData),
    decreases pairs, 1nat,
{
    if pairs.len() > 0 {
        let key = encoding(pairs[0].0);
        let value = encoding(pairs[0].1);
        let tail = write_pairs(pairs.skip(1)).bytes;
        lemma_concat_assoc(key, value, tail);
        lemma_take_concat(key, value + tail, k);
        let input = write_pairs(pairs).bytes.take(k);
        if k < key.len() {
            lemma_truncated(pairs[0].0, entry.0, k);
        } else {
            let cut = (value + tail).take(k - key.len());
            lemma_split_concat(key, cut);
            lemma_round_trip_with_rest(pairs[0].0, entry.0, cut);
            lemma_take_concat(value, tail, k - key.len());
            if k - key.len() < value.len() {
                lemma_truncated(pairs[0].1, entry.1, k - key.len());
            } else {
                let rest = tail.take(k - key.len() - value.len());
                lemma_split_concat(value, rest);
                lemma_round_trip_with_rest(pairs[0].1, entry.1, rest);
                assert(read_pair(entry, input) == done(pairs[0], key.len() + value.len()));
                lemma_concat_assoc(key, value, rest);
                lemma_split_concat(key + value, rest);
                lemma_truncated_pairs(pairs.skip(1), entry, k - key.len() - value.len());
            }
        }
    }
}

/// Decoding a beginning of what was written for the payload of a variant,
/// shorter than all of it, fails for want of data.
pub proof fn lemma_truncated_payload(payload: PayloadView, variant: VariantShape, k: int)
    requires
        payload_conforms(payload, variant),
        write_payload(payload).error is None,
        0 <= k < write_payload(payload).bytes.len(),
    ensures
        read_payload(variant, write_payload(payload).bytes.take(k)).result == Err::<
            PayloadView,
            Error,
        >(Error::InsufficientData),
    decreases payload, 1nat,
{
    match payload {
        PayloadView::Unit => {},
        PayloadView::NewType(inner) => {
            lemma_truncated(*inner, variant->NewType_0, k);
        },
        PayloadView::Tuple(items) => {
            lemma_truncated_each(items, variant->Tuple_0@, k);
        },
        PayloadView::Struct(items) => {
            lemma_truncated_each(items, variant->Struct_0@, k);
        },
    }
}

/// A beginning of some bytes, and a beginning of what follows it, are a
/// beginning of those bytes.
pub proof fn lemma_take_take(s: Seq<u8>, a: nat, b: nat)
    requires
        a + b <= s.len(),
    ensures
        s.take(a as int) + s.skip(a as int).take(b as int) == s.take((a + b) as int),
{
    assert(s.take(a as int) + s.skip(a as int).take(b as int) =~= s.take((a + b) as int));
}

/// Valid UTF-8 of as many bytes as its first byte announces is the
/// encoding of one character.
pub proof fn lemma_char_decoding(bytes: Seq<u8>)
    requires
        bytes.len() > 0,
        utf8_width(bytes[0]) is Some,
        utf8_width(bytes[0])->0 == bytes.len(),
        valid_utf8(bytes),
    ensures
        encode_utf8(seq![decode_utf8(bytes)[0]]) == bytes,
{
    vstd::utf8::decode_utf8_encode_utf8(bytes);
    let rest = vstd::utf8::pop_first_scalar(bytes);
    assert(rest =~= Seq::<u8>::empty());
    assert(decode_utf8(rest) =~= Seq::<char>::empty());
    assert(decode_utf8(bytes) =~= seq![decode_utf8(bytes)[0]]);
}

/// What decodes as a value of fixed layout is what is written for that
/// value.
pub proof fn lemma_reencode_primitive(shape: PrimitiveShape, input: Seq<u8>)
    requires
        read_primitive(shape, input).result is Ok,
    ensures
        primitive_shape(read_primitive(shape, input).result->Ok_0) == shape,
        read_primitive(shape, input).consumed <= input.len(),
        primitive_bytes(read_primitive(shape, input).result->Ok_0) == input.take(
            read_primitive(shape, input).consumed as int,
        ),
{
    let read = read_primitive(shape, input);
    let p = read.result->Ok_0;
    let taken = input.take(read.consumed as int);
    match shape {
        PrimitiveShape::Bool => {
            assert(primitive_bytes(p) =~= taken);
        },
        PrimitiveShape::I8 => {
            lemma_i8_bits_of_value(input[0]);
            assert(primitive_bytes(p) =~= taken);
        },
        PrimitiveShape::I16 => {
            lemma_u16_bytes_of_value(taken);
            lemma_i16_bits_of_value(u16_value(taken));
        },
        PrimitiveShape::I32 => {
            lemma_u32_bytes_of_value(taken);
            lemma_i32_bits_of_value(u32_value(taken));
        },
        PrimitiveShape::I64 => {
            lemma_u64_bytes_of_value(taken);
            lemma_i64_bits_of_value(u64_value(taken));
        },
        PrimitiveShape::U8 => {
            assert(primitive_bytes(p) =~= taken);
        },
        PrimitiveShape::U16 => {
            lemma_u16_bytes_of_value(taken);
        },
        PrimitiveShape::U32 => {
            lemma_u32_bytes_of_value(taken);
        },
        PrimitiveShape::U64 => {
            lemma_u64_bytes_of_value(taken);
        },
        PrimitiveShape::F32 => {
            lemma_u32_bytes_of_value(taken);
        },
        PrimitiveShape::F64 => {
            lemma_u64_bytes_of_value(taken);
        },
        PrimitiveShape::Char => {
            assert(taken[0] == input[0]);
            lemma_char_decoding(taken);
        },
        PrimitiveShape::Unit => {
            assert(primitive_bytes(p) =~= taken);
        },
    }
}

/// What decodes as a value of some shape is what is written for that
/// value: the value has the shape, it can be encoded, and its bytes are the
/// bytes that were read.
pub proof fn lemma_reencode(shape: Shape, input: Seq<u8>)
    requires
        read_value(shape, input).result is Ok,
    ensures
        conforms(read_value(shape, input).result->Ok_0, shape),
        encodable(read_value(shape, input).result->Ok_0),
        read_value(shape, input).consumed <= input.len(),
        encoding(read_value(shape, input).result->Ok_0) == input.take(
            read_value(shape, input).consumed as int,
        ),
    decreases shape, 0nat, 0nat,
{
    let read = read_value(shape, input);
    let v = read.result->Ok_0;
    let taken = input.take(read.consumed as int);
    lemma_read_value_in_bounds(shape, input);
    match shape {
        Shape::Primitive(p) => {
            lemma_reencode_primitive(p, input);
        },
        Shape::Str => {
            let head = input.take(4);
            let n = u32_value(head) as nat;
            let text = input.skip(4).take(n as int);
            lemma_u32_bytes_of_value(head);
            vstd::utf8::decode_utf8_encode_utf8(text);
            lemma_take_take(input, 4, n);
        },
        Shape::Bytes => {
            let head = input.take(8);
            let n = u64_value(head) as nat;
            lemma_u64_bytes_of_value(head);
            lemma_take_take(input, 8, n);
        },
        Shape::Optional(inner) => {
            let tag = read_option_tag(input);
            if tag.result == Ok::<bool, Error>(true) {
                let rest = input.skip(1);
                lemma_reencode(*inner, rest);
                lemma_take_take(input, 1, read_value(*inner, rest).consumed);
                assert(input.take(1) =~= seq![1u8]);
            } else {
                assert(taken =~= seq![0u8]);
            }
        },
        Shape::NewType(inner) => {
            lemma_reencode(*inner, input);
        },
        Shape::Sequence(elem) => {
            let head = input.take(4);
            let n = u32_value(head) as nat;
            let rest = input.skip(4);
            lemma_u32_bytes_of_value(head);
            lemma_reencode_n(*elem, n, rest);
            lemma_take_take(input, 4, read_n(*elem, n, rest).consumed);
        },
        Shape::Tuple(shapes) => {
            lemma_reencode_each(shapes@, input);
        },
        Shape::Mapping(entry) => {
            let head = input.take(4);
            let n = u32_value(head) as nat;
            let rest = input.skip(4);
            lemma_u32_bytes_of_value(head);
            lemma_reencode_pairs(*entry, n, rest);
            lemma_take_take(input, 4, read_pairs(*entry, n, rest).consumed);
        },
        Shape::Struct(shapes) => {
            lemma_reencode_each(shapes@, input);
        },
        Shape::Enum(variants) => {
            let tag = read_u8(input).result->Ok_0;
            let rest = input.skip(1);
            lemma_reencode_payload(variants@[tag as int], rest);
            lemma_take_take(input, 1, read_payload(variants@[tag as int], rest).consumed);
            assert(input.take(1) =~= seq![tag]);
        },
    }
}

/// What decodes as a run of values of one shape is what is written for
/// those values.
pub proof fn lemma_reencode_n(shape: Shape, n: nat, input: Seq<u8>)
    requires
        read_n(shape, n, input).result is Ok,
    ensures
        read_n(shape, n, input).result->Ok_0.len() == n,
        all_conform(read_n(shape, n, input).result->Ok_0, shape),
        write_all(read_n(shape, n, input).result->Ok_0).error is None,
        read_n(shape, n, input).consumed <= input.len(),
        write_all(read_n(shape, n, input).result->Ok_0).bytes == input.take(
            read_n(shape, n, input).consumed as int,
        ),
    decreases shape, 1nat, n,
{
    lemma_read_n_in_bounds(shape, n, input);
    if n == 0 {
        assert(input.take(0) =~= Seq::<u8>::empty());
    } else {
        let first = read_value(shape, input);
        let rest = input.skip(first.consumed as int);
        let others = read_n(shape, (n - 1) as nat, rest);
        let items = read_n(shape, n, input).result->Ok_0;
        lemma_reencode(shape, input);
        lemma_reencode_n(shape, (n - 1) as nat, rest);
        assert(items[0] == first.result->Ok_0);
        assert(items.skip(1) =~= others.result->Ok_0);
        lemma_take_take(input, first.consumed, others.consumed);
    }
}

/// What decodes as values of given shapes is what is written for those
/// values.
pub proof fn lemma_reencode_each(shapes: Seq<Shape>, input: Seq<u8>)
    requires
        read_each(shapes, input).result is Ok,
    ensures
        each_conforms(read_each(shapes, input).result->Ok_0, shapes),
        write_all(read_each(shapes, input).result->Ok_0).error is None,
        read_each(shapes, input).consumed <= input.len(),
        write_all(read_each(shapes, input).result->Ok_0).bytes == input.take(
            read_each(shapes, input).consumed as int,
        ),
    decreases shapes, 1nat, 0nat,
{
    lemma_read_each_in_bounds(shapes, input);
    if shapes.len() == 0 {
        assert(input.take(0) =~= Seq::<u8>::empty());
    } else {
        let first = read_value(shapes[0], input);
        let rest = input.skip(first.consumed as int);
        let others = read_each(shapes.skip(1), rest);
        let items = read_each(shapes, input).result->Ok_0;
        lemma_reencode(shapes[0], input);
        lemma_reencode_each(shapes.skip(1), rest);
        assert(items[0] == first.result->Ok_0);
        assert(items.skip(1) =~= others.result->Ok_0);
        lemma_take_take(input, first.consumed, others.consumed);
    }
}

/// What decodes as the pairs of a map is what is written for those pairs.
pub proof fn lemma_reencode_pairs(entry: (Shape, Shape), n: nat, input: Seq<u8>)
    requires
        read_pairs(entry, n, input).result is Ok,
    ensures
        read_pairs(entry, n, input).result->Ok_0.len() == n,
        pairs_conform(read_pairs(entry, n, input).result->Ok_0, entry),
        write_pairs(read_pairs(entry, n, input).result->Ok_0).error is None,
        read_pairs(entry, n, input).consumed <= input.len(),
        write_pairs(read_pairs(entry, n, input).result->Ok_0).bytes == input.take(
            read_pairs(entry, n, input).consumed as int,
        ),
    decreases entry, 2nat, n,
{
    lemma_read_pairs_in_bounds(entry, n, input);
    if n == 0 {
        assert(input.take(0) =~= Seq::<u8>::empty());
    } else {
        let key = read_value(entry.0, input);
        let after_key = input.skip(key.consumed as int);
        let value = read_value(entry.1, after_key);
        let first = read_pair(entry, input);
        let rest = input.skip(first.consumed as int);
        let others = read_pairs(entry, (n - 1) as nat, rest);
        let pairs = read_pairs(entry, n, input).result->Ok_0;
        lemma_read_pair_in_bounds(entry, input);
        lemma_reencode(entry.0, input);
        lemma_reencode(entry.1, after_key);
        lemma_take_take(input, key.consumed, value.consumed);
        lemma_reencode_pairs(entry, (n - 1) as nat, rest);
        assert(pairs[0] == first.result->Ok_0);
        assert(pairs.skip(1) =~= others.result->Ok_0);
        lemma_take_take(input, first.consumed, others.consumed);
    }
}

/// What decodes as the payload of a variant is what is written for that
/// payload.
pub proof fn lemma_reencode_payload(variant: VariantShape, input: Seq<u8>)
    requires
        read_payload(variant, input).result is Ok,
    ensures
        payload_conforms(read_payload(variant, input).result->Ok_0, variant),
        write_payload(read_payload(variant, input).result->Ok_0).error is None,
        read_payload(variant, input).consumed <= input.len(),
        write_payload(read_payload(variant, input).result->Ok_0).bytes == input.take(
            read_payload(variant, input).consumed as int,
        ),
    decreases variant, 0nat, 0nat,
{
    lemma_read_payload_in_bounds(variant, input);
    match variant {
        VariantShape::Unit => {
            assert(input.take(0) =~= Seq::<u8>::empty());
        },
        VariantShape::NewType(inner) => {
            lemma_reencode(inner, input);
        },
        VariantShape::Tuple(shapes) => {
            lemma_reencode_each(shapes@, input);
        },
        VariantShape::Struct(shapes) => {
            lemma_reencode_each(shapes@, input);
        },
    }
}

} // verus!
