//! The decoder: a cursor over borrowed bytes, with one operation per shape
//! of value. Each operation reads exactly the bytes that the encoder wrote
//! for that shape, and never looks past the end of the input.

use crate::wire::{
    i16_from_bits, i16_of_bits, i32_from_bits, i32_of_bits, i64_from_bits, i64_of_bits,
    i8_from_bits, i8_of_bits, u16_from_ne_bytes, u16_value, u32_from_ne_bytes, u32_value,
    u64_from_ne_bytes, u64_value,
};
use crate::value::{
    lemma_pair_views_push, lemma_views_push, pair_views, views, Payload, PayloadView, Primitive,
    PrimitiveShape, Shape, Value, ValueView, VariantShape,
};
use vstd::pervasive::unreached;
use vstd::prelude::*;
use vstd::slice::{slice_subrange, slice_to_vec};
use vstd::string::StrSliceExecFns;
use vstd::utf8::{decode_utf8, encode_utf8, valid_utf8};

verus! {

/// Why bytes could not be decoded.
///
/// What was encoded has lengths that fit their prefixes, so decoding never
/// meets a length that is too long: its errors are its own.
#[derive(Debug, PartialEq, Eq)]
pub enum Error {
    /// A failure that the caller raised, with its message.
    Custom(String),
    /// A value was asked for without saying of which shape: the bytes do
    /// not tell.
    UnsupportedSelfDescribing,
    /// The byte of a boolean is neither 0 nor 1.
    MalformedBool,
    /// The bytes of a character or of a string are not UTF-8.
    MalformedUTF8,
    /// The tag of an option is neither 0 nor 1.
    MalformedOption,
    /// More bytes were asked for than are left.
    InsufficientData,
    /// A sequence without a known length.
    UnknownSequenceLength,
    /// A variant tag that names no variant.
    UnknownVariant,
}

impl Error {
    /// The text of the error: the name of its kind, or the message of a
    /// custom one.
    pub open spec fn text(self) -> Seq<char> {
        match self {
            Error::Custom(msg) => msg@,
            Error::UnsupportedSelfDescribing => "UnsupportedSelfDescribing"@,
            Error::MalformedBool => "MalformedBool"@,
            Error::MalformedUTF8 => "MalformedUTF8"@,
            Error::MalformedOption => "MalformedOption"@,
            Error::InsufficientData => "InsufficientData"@,
            Error::UnknownSequenceLength => "UnknownSequenceLength"@,
            Error::UnknownVariant => "UnknownVariant"@,
        }
    }

    /// A custom error with the message `msg`.
    pub fn custom(msg: &str) -> (e: Error)
        ensures
            e matches Error::Custom(m) && m@ == msg@,
    {
        Error::Custom(msg.to_owned())
    }

    /// The error as text.
    pub fn to_string(&self) -> (s: String)
        ensures
            s@ == self.text(),
    {
        match self {
            Error::Custom(msg) => msg.clone(),
            Error::UnsupportedSelfDescribing => "UnsupportedSelfDescribing".to_owned(),
            Error::MalformedBool => "MalformedBool".to_owned(),
            Error::MalformedUTF8 => "MalformedUTF8".to_owned(),
            Error::MalformedOption => "MalformedOption".to_owned(),
            Error::InsufficientData => "InsufficientData".to_owned(),
            Error::UnknownSequenceLength => "UnknownSequenceLength".to_owned(),
            Error::UnknownVariant => "UnknownVariant".to_owned(),
        }
    }
}

/// What one decoding operation does on some input: the value or the error
/// that it returns, and the number of bytes by which it moves the cursor.
pub struct Decoded<T> {
    pub result: Result<T, Error>,
    pub consumed: nat,
}

/// A decoded value, after `consumed` bytes.
pub open spec fn done<T>(value: T, consumed: nat) -> Decoded<T> {
    Decoded { result: Ok(value), consumed }
}

/// A failure, after `consumed` bytes.
pub open spec fn failed<T>(error: Error, consumed: nat) -> Decoded<T> {
    Decoded { result: Err(error), consumed }
}

/// The result of an operation with the value that it holds replaced by its
/// view.
pub open spec fn viewed<T: View>(r: Result<T, Error>) -> Result<T::V, Error> {
    match r {
        Ok(v) => Ok(v@),
        Err(e) => Err(e),
    }
}

/// The number of bytes of the UTF-8 encoding that starts with the byte
/// `b0`, where that byte can start one: 1 for `0xxxxxxx`, 2 for `110xxxxx`,
/// 3 for `1110xxxx`, 4 for `11110xxx`.
pub open spec fn utf8_width(b0: u8) -> Option<usize> {
    if b0 <= 0x7f {
        Some(1)
    } else if 0xc0 <= b0 <= 0xdf {
        Some(2)
    } else if 0xe0 <= b0 <= 0xef {
        Some(3)
    } else if 0xf0 <= b0 <= 0xf7 {
        Some(4)
    } else {
        None
    }
}

/// Decoding one byte.
pub open spec fn read_u8(input: Seq<u8>) -> Decoded<u8> {
    if input.len() >= 1 {
        done(input[0], 1)
    } else {
        failed(Error::InsufficientData, 0)
    }
}

/// Decoding an unsigned 16-bit integer.
pub open spec fn read_u16(input: Seq<u8>) -> Decoded<u16> {
    if input.len() >= 2 {
        done(u16_value(input.take(2)), 2)
    } else {
        failed(Error::InsufficientData, 0)
    }
}

/// Decoding an unsigned 32-bit integer.
pub open spec fn read_u32(input: Seq<u8>) -> Decoded<u32> {
    if input.len() >= 4 {
        done(u32_value(input.take(4)), 4)
    } else {
        failed(Error::InsufficientData, 0)
    }
}

/// Decoding an unsigned 64-bit integer.
pub open spec fn read_u64(input: Seq<u8>) -> Decoded<u64> {
    if input.len() >= 8 {
        done(u64_value(input.take(8)), 8)
    } else {
        failed(Error::InsufficientData, 0)
    }
}

/// Decoding a signed byte.
pub open spec fn read_i8(input: Seq<u8>) -> Decoded<i8> {
    if input.len() >= 1 {
        done(i8_of_bits(input[0]), 1)
    } else {
        failed(Error::InsufficientData, 0)
    }
}

/// Decoding a signed 16-bit integer.
pub open spec fn read_i16(input: Seq<u8>) -> Decoded<i16> {
    if input.len() >= 2 {
        done(i16_of_bits(u16_value(input.take(2))), 2)
    } else {
        failed(Error::InsufficientData, 0)
    }
}

/// Decoding a signed 32-bit integer.
pub open spec fn read_i32(input: Seq<u8>) -> Decoded<i32> {
    if input.len() >= 4 {
        done(i32_of_bits(u32_value(input.take(4))), 4)
    } else {
        failed(Error::InsufficientData, 0)
    }
}

/// Decoding a signed 64-bit integer.
pub open spec fn read_i64(input: Seq<u8>) -> Decoded<i64> {
    if input.len() >= 8 {
        done(i64_of_bits(u64_value(input.take(8))), 8)
    } else {
        failed(Error::InsufficientData, 0)
    }
}

/// Decoding a boolean: the byte 0 is `false`, the byte 1 is `true`, and any
/// other byte is refused where it stands.
pub open spec fn read_bool(input: Seq<u8>) -> Decoded<bool> {
    if input.len() == 0 {
        failed(Error::InsufficientData, 0)
    } else if input[0] == 0 {
        done(false, 1)
    } else if input[0] == 1 {
        done(true, 1)
    } else {
        failed(Error::MalformedBool, 0)
    }
}

/// Decoding the tag of an option: the byte 0 is absent, the byte 1 is
/// present, and any other byte is refused where it stands.
pub open spec fn read_option_tag(input: Seq<u8>) -> Decoded<bool> {
    if input.len() == 0 {
        failed(Error::InsufficientData, 0)
    } else if input[0] == 0 {
        done(false, 1)
    } else if input[0] == 1 {
        done(true, 1)
    } else {
        failed(Error::MalformedOption, 0)
    }
}

/// Decoding a character: the first byte says how many bytes its encoding
/// has; that many bytes are taken, and must be the UTF-8 encoding of one
/// character.
pub open spec fn read_char(input: Seq<u8>) -> Decoded<char> {
    if input.len() == 0 {
        failed(Error::InsufficientData, 0)
    } else if utf8_width(input[0]) is None {
        failed(Error::MalformedUTF8, 0)
    } else {
        let n = utf8_width(input[0])->0 as nat;
        if input.len() < n {
            failed(Error::InsufficientData, 0)
        } else if !valid_utf8(input.take(n as int)) {
            failed(Error::MalformedUTF8, 0)
        } else {
            done(decode_utf8(input.take(n as int))[0], n)
        }
    }
}

/// Decoding a string: a `u32` says how many bytes follow, and those bytes
/// must be UTF-8. Once the length is read the cursor stays behind it, also
/// where the bytes are missing or malformed.
pub open spec fn read_str(input: Seq<u8>) -> Decoded<Seq<char>> {
    if input.len() < 4 {
        failed(Error::InsufficientData, 0)
    } else {
        let n = u32_value(input.take(4)) as nat;
        let rest = input.skip(4);
        if rest.len() < n {
            failed(Error::InsufficientData, 4)
        } else if !valid_utf8(rest.take(n as int)) {
            failed(Error::MalformedUTF8, 4)
        } else {
            done(decode_utf8(rest.take(n as int)), 4 + n)
        }
    }
}

/// Decoding a byte buffer: a `u64` says how many bytes follow. Once the
/// length is read the cursor stays behind it, also where the bytes are
/// missing.
pub open spec fn read_bytes(input: Seq<u8>) -> Decoded<Seq<u8>> {
    if input.len() < 8 {
        failed(Error::InsufficientData, 0)
    } else {
        let n = u64_value(input.take(8)) as nat;
        let rest = input.skip(8);
        if rest.len() < n {
            failed(Error::InsufficientData, 8)
        } else {
            done(rest.take(n as int), 8 + n)
        }
    }
}

/// The same outcome with the value, if there is one, changed by `f`.
pub open spec fn mapped<A, B>(d: Decoded<A>, f: spec_fn(A) -> B) -> Decoded<B> {
    match d.result {
        Ok(v) => done(f(v), d.consumed),
        Err(e) => failed(e, d.consumed),
    }
}

/// The outcome of an operation that ran after `consumed` bytes were read.
pub open spec fn after<T>(consumed: nat, d: Decoded<T>) -> Decoded<T> {
    Decoded { result: d.result, consumed: consumed + d.consumed }
}

/// Decoding a value of fixed layout.
pub open spec fn read_primitive(shape: PrimitiveShape, input: Seq<u8>) -> Decoded<Primitive> {
    match shape {
        PrimitiveShape::Bool => mapped(read_bool(input), |v: bool| Primitive::Bool(v)),
        PrimitiveShape::I8 => mapped(read_i8(input), |v: i8| Primitive::I8(v)),
        PrimitiveShape::I16 => mapped(read_i16(input), |v: i16| Primitive::I16(v)),
        PrimitiveShape::I32 => mapped(read_i32(input), |v: i32| Primitive::I32(v)),
        PrimitiveShape::I64 => mapped(read_i64(input), |v: i64| Primitive::I64(v)),
        PrimitiveShape::U8 => mapped(read_u8(input), |v: u8| Primitive::U8(v)),
        PrimitiveShape::U16 => mapped(read_u16(input), |v: u16| Primitive::U16(v)),
        PrimitiveShape::U32 => mapped(read_u32(input), |v: u32| Primitive::U32(v)),
        PrimitiveShape::U64 => mapped(read_u64(input), |v: u64| Primitive::U64(v)),
        PrimitiveShape::F32 => mapped(read_u32(input), |v: u32| Primitive::F32(v)),
        PrimitiveShape::F64 => mapped(read_u64(input), |v: u64| Primitive::F64(v)),
        PrimitiveShape::Char => mapped(read_char(input), |v: char| Primitive::Char(v)),
        PrimitiveShape::Unit => done(Primitive::Unit, 0),
    }
}

/// Decoding one more of the elements of a collection of which `remaining`
/// are left: nothing is read where none is left.
pub open spec fn read_next(shape: Shape, remaining: nat, input: Seq<u8>) -> Decoded<
    Option<ValueView>,
> {
    if remaining == 0 {
        done(None, 0)
    } else {
        mapped(read_value(shape, input), |v: ValueView| Some(v))
    }
}

/// Decoding `n` values of one shape, one after the other.
pub open spec fn read_n(shape: Shape, n: nat, input: Seq<u8>) -> Decoded<Seq<ValueView>>
    decreases shape, 1nat, n,
{
    if n == 0 {
        done(Seq::empty(), 0)
    } else {
        let first = read_value(shape, input);
        match first.result {
            Err(e) => failed(e, first.consumed),
            Ok(v) => after(
                first.consumed,
                mapped(
                    read_n(shape, (n - 1) as nat, input.skip(first.consumed as int)),
                    |vs: Seq<ValueView>| seq![v] + vs,
                ),
            ),
        }
    }
}

/// Decoding values of the shapes `shapes`, one after the other.
pub open spec fn read_each(shapes: Seq<Shape>, input: Seq<u8>) -> Decoded<Seq<ValueView>>
    decreases shapes, 1nat, 0nat,
{
    if shapes.len() == 0 {
        done(Seq::empty(), 0)
    } else {
        let first = read_value(shapes[0], input);
        match first.result {
            Err(e) => failed(e, first.consumed),
            Ok(v) => after(
                first.consumed,
                mapped(
                    read_each(shapes.skip(1), input.skip(first.consumed as int)),
                    |vs: Seq<ValueView>| seq![v] + vs,
                ),
            ),
        }
    }
}

/// Decoding one pair of a map: its key, then its value.
pub open spec fn read_pair(entry: (Shape, Shape), input: Seq<u8>) -> Decoded<
    (ValueView, ValueView),
>
    decreases entry, 1nat, 0nat,
{
    let key = read_value(entry.0, input);
    match key.result {
        Err(e) => failed(e, key.consumed),
        Ok(k) => after(
            key.consumed,
            mapped(
                read_value(entry.1, input.skip(key.consumed as int)),
                |v: ValueView| (k, v),
            ),
        ),
    }
}

/// Decoding `n` pairs of a map, one after the other.
pub open spec fn read_pairs(entry: (Shape, Shape), n: nat, input: Seq<u8>) -> Decoded<
    Seq<(ValueView, ValueView)>,
>
    decreases entry, 2nat, n,
{
    if n == 0 {
        done(Seq::empty(), 0)
    } else {
        let first = read_pair(entry, input);
        match first.result {
            Err(e) => failed(e, first.consumed),
            Ok(p) => after(
                first.consumed,
                mapped(
                    read_pairs(entry, (n - 1) as nat, input.skip(first.consumed as int)),
                    |ps: Seq<(ValueView, ValueView)>| seq![p] + ps,
                ),
            ),
        }
    }
}

/// Decoding the payload of a variant.
pub open spec fn read_payload(variant: VariantShape, input: Seq<u8>) -> Decoded<PayloadView>
    decreases variant, 0nat, 0nat,
{
    match variant {
        VariantShape::Unit => done(PayloadView::Unit, 0),
        VariantShape::NewType(inner) => mapped(
            read_value(inner, input),
            |v: ValueView| PayloadView::NewType(Box::new(v)),
        ),
        VariantShape::Tuple(shapes) => mapped(
            read_each(shapes@, input),
            |vs: Seq<ValueView>| PayloadView::Tuple(vs),
        ),
        VariantShape::Struct(shapes) => mapped(
            read_each(shapes@, input),
            |vs: Seq<ValueView>| PayloadView::Struct(vs),
        ),
    }
}

/// Decoding a value of the shape `shape`.
///
/// An option is its tag and, where the tag says so, a value. A sequence and
/// a map are a `u32` and as many elements or pairs. A tuple and a struct
/// are their elements or fields, without a count. An enum is a one-byte tag
/// and the payload of the variant that the tag names; a tag that names none
/// is refused once it is read.
pub open spec fn read_value(shape: Shape, input: Seq<u8>) -> Decoded<ValueView>
    decreases shape, 0nat, 0nat,
{
    match shape {
        Shape::Primitive(p) => mapped(
            read_primitive(p, input),
            |v: Primitive| ValueView::Primitive(v),
        ),
        Shape::Str => mapped(read_str(input), |s: Seq<char>| ValueView::Str(s)),
        Shape::Bytes => mapped(read_bytes(input), |b: Seq<u8>| ValueView::Bytes(b)),
        Shape::Optional(inner) => {
            let tag = read_option_tag(input);
            match tag.result {
                Err(e) => failed(e, tag.consumed),
                Ok(false) => done(ValueView::Absent, tag.consumed),
                Ok(true) => after(
                    tag.consumed,
                    mapped(
                        read_value(*inner, input.skip(tag.consumed as int)),
                        |v: ValueView| ValueView::Present(Box::new(v)),
                    ),
                ),
            }
        },
        Shape::NewType(inner) => mapped(
            read_value(*inner, input),
            |v: ValueView| ValueView::NewType(Box::new(v)),
        ),
        Shape::Sequence(elem) => {
            let len = read_u32(input);
            match len.result {
                Err(e) => failed(e, len.consumed),
                Ok(n) => after(
                    len.consumed,
                    mapped(
                        read_n(*elem, n as nat, input.skip(len.consumed as int)),
                        |vs: Seq<ValueView>| ValueView::Sequence(vs),
                    ),
                ),
            }
        },
        Shape::Tuple(shapes) => mapped(
            read_each(shapes@, input),
            |vs: Seq<ValueView>| ValueView::Tuple(vs),
        ),
        Shape::Mapping(entry) => {
            let len = read_u32(input);
            match len.result {
                Err(e) => failed(e, len.consumed),
                Ok(n) => after(
                    len.consumed,
                    mapped(
                        read_pairs(*entry, n as nat, input.skip(len.consumed as int)),
                        |ps: Seq<(ValueView, ValueView)>| ValueView::Mapping(ps),
                    ),
                ),
            }
        },
        Shape::Struct(shapes) => mapped(
            read_each(shapes@, input),
            |vs: Seq<ValueView>| ValueView::Struct(vs),
        ),
        Shape::Enum(variants) => {
            let tag = read_u8(input);
            match tag.result {
                Err(e) => failed(e, tag.consumed),
                Ok(t) => if t >= variants@.len() {
                    failed(Error::UnknownVariant, tag.consumed)
                } else {
                    after(
                        tag.consumed,
                        mapped(
                            read_payload(variants@[t as int], input.skip(tag.consumed as int)),
                            |p: PayloadView| ValueView::Variant(t as u32, p),
                        ),
                    )
                },
            }
        },
    }
}

/// No operation reads more than there is: what decoding a value consumes
/// is within the input.
pub proof fn lemma_read_value_in_bounds(shape: Shape, input: Seq<u8>)
    ensures
        read_value(shape, input).consumed <= input.len(),
    decreases shape, 0nat, 0nat,
{
    match shape {
        Shape::Primitive(p) => {},
        Shape::Str => {},
        Shape::Bytes => {},
        Shape::Optional(inner) => {
            let tag = read_option_tag(input);
            if tag.result == Ok::<bool, Error>(true) {
                lemma_read_value_in_bounds(*inner, input.skip(tag.consumed as int));
            }
        },
        Shape::NewType(inner) => {
            lemma_read_value_in_bounds(*inner, input);
        },
        Shape::Sequence(elem) => {
            let len = read_u32(input);
            if len.result is Ok {
                lemma_read_n_in_bounds(
                    *elem,
                    len.result->Ok_0 as nat,
                    input.skip(len.consumed as int),
                );
            }
        },
        Shape::Tuple(shapes) => {
            lemma_read_each_in_bounds(shapes@, input);
        },
        Shape::Mapping(entry) => {
            let len = read_u32(input);
            if len.result is Ok {
                lemma_read_pairs_in_bounds(
                    *entry,
                    len.result->Ok_0 as nat,
                    input.skip(len.consumed as int),
                );
            }
        },
        Shape::Struct(shapes) => {
            lemma_read_each_in_bounds(shapes@, input);
        },
        Shape::Enum(variants) => {
            let tag = read_u8(input);
            if tag.result is Ok && tag.result->Ok_0 < variants@.len() {
                lemma_read_payload_in_bounds(
                    variants@[tag.result->Ok_0 as int],
                    input.skip(tag.consumed as int),
                );
            }
        },
    }
}

/// What decoding `n` values consumes is within the input.
pub proof fn lemma_read_n_in_bounds(shape: Shape, n: nat, input: Seq<u8>)
    ensures
        read_n(shape, n, input).consumed <= input.len(),
    decreases shape, 1nat, n,
{
    if n > 0 {
        let first = read_value(shape, input);
        lemma_read_value_in_bounds(shape, input);
        if first.result is Ok {
            lemma_read_n_in_bounds(shape, (n - 1) as nat, input.skip(first.consumed as int));
        }
    }
}

/// What decoding values of given shapes consumes is within the input.
pub proof fn lemma_read_each_in_bounds(shapes: Seq<Shape>, input: Seq<u8>)
    ensures
        read_each(shapes, input).consumed <= input.len(),
    decreases shapes, 1nat, 0nat,
{
    if shapes.len() > 0 {
        let first = read_value(shapes[0], input);
        lemma_read_value_in_bounds(shapes[0], input);
        if first.result is Ok {
            lemma_read_each_in_bounds(shapes.skip(1), input.skip(first.consumed as int));
        }
    }
}

/// What decoding a pair consumes is within the input.
pub proof fn lemma_read_pair_in_bounds(entry: (Shape, Shape), input: Seq<u8>)
    ensures
        read_pair(entry, input).consumed <= input.len(),
    decreases entry, 1nat, 0nat,
{
    let key = read_value(entry.0, input);
    lemma_read_value_in_bounds(entry.0, input);
    if key.result is Ok {
        lemma_read_value_in_bounds(entry.1, input.skip(key.consumed as int));
    }
}

/// What decoding `n` pairs consumes is within the input.
pub proof fn lemma_read_pairs_in_bounds(entry: (Shape, Shape), n: nat, input: Seq<u8>)
    ensures
        read_pairs(entry, n, input).consumed <= input.len(),
    decreases entry, 2nat, n,
{
    if n > 0 {
        let first = read_pair(entry, input);
        lemma_read_pair_in_bounds(entry, input);
        if first.result is Ok {
            lemma_read_pairs_in_bounds(entry, (n - 1) as nat, input.skip(first.consumed as int));
        }
    }
}

/// What decoding a payload consumes is within the input.
pub proof fn lemma_read_payload_in_bounds(variant: VariantShape, input: Seq<u8>)
    ensures
        read_payload(variant, input).consumed <= input.len(),
    decreases variant, 0nat, 0nat,
{
    match variant {
        VariantShape::Unit => {},
        VariantShape::NewType(inner) => {
            lemma_read_value_in_bounds(inner, input);
        },
        VariantShape::Tuple(shapes) => {
            lemma_read_each_in_bounds(shapes@, input);
        },
        VariantShape::Struct(shapes) => {
            lemma_read_each_in_bounds(shapes@, input);
        },
    }
}

/// The result of pulling an element, with the value that it holds, if it
/// holds one, replaced by its view.
pub open spec fn viewed_next(r: Result<Option<Value>, Error>) -> Result<Option<ValueView>, Error> {
    match r {
        Ok(Some(v)) => Ok(Some(v@)),
        Ok(None) => Ok(None),
        Err(e) => Err(e),
    }
}

/// The result of decoding several values, with the values replaced by
/// their views.
pub open spec fn viewed_all(r: Result<Vec<Value>, Error>) -> Result<Seq<ValueView>, Error> {
    match r {
        Ok(items) => Ok(views(items@)),
        Err(e) => Err(e),
    }
}

/// The result of decoding several pairs, with the keys and values replaced
/// by their views.
pub open spec fn viewed_pairs(r: Result<Vec<(Value, Value)>, Error>) -> Result<
    Seq<(ValueView, ValueView)>,
    Error,
> {
    match r {
        Ok(pairs) => Ok(pair_views(pairs@)),
        Err(e) => Err(e),
    }
}

/// The number of elements that are left of `remaining` once one more was
/// asked for: one less where one was decoded.
pub open spec fn left_after(remaining: nat, d: Decoded<Option<ValueView>>) -> nat {
    if d.result is Ok && d.result->Ok_0 is Some {
        (remaining - 1) as nat
    } else {
        remaining
    }
}

/// The outcome of decoding a run of which `items` were decoded from the
/// first `used` bytes, and the others decode as `rest` says.
pub open spec fn resumed<T>(items: Seq<T>, used: nat, rest: Decoded<Seq<T>>) -> Decoded<Seq<T>> {
    match rest.result {
        Ok(more) => done(items + more, used + rest.consumed),
        Err(e) => failed(e, used + rest.consumed),
    }
}

/// Skipping some bytes and then some more is skipping them at once.
pub proof fn lemma_skip_skip(s: Seq<u8>, a: nat, b: nat)
    requires
        a + b <= s.len(),
    ensures
        s.skip(a as int).skip(b as int) == s.skip((a + b) as int),
{
    assert(s.skip(a as int).skip(b as int) =~= s.skip((a + b) as int));
}

/// Skipping no bytes leaves all of them.
pub proof fn lemma_skip_none(s: Seq<u8>)
    ensures
        s.skip(0) == s,
{
    assert(s.skip(0) =~= s);
}

/// One more step of decoding `n` values of one shape, after `items` were
/// decoded from the first `used` bytes of `start`.
pub proof fn lemma_read_n_step(
    shape: Shape,
    n: nat,
    start: Seq<u8>,
    used: nat,
    items: Seq<ValueView>,
)
    requires
        n > 0,
        used <= start.len(),
    ensures
        ({
            let input = start.skip(used as int);
            let first = read_value(shape, input);
            let whole = resumed(items, used, read_n(shape, n, input));
            let next = used + first.consumed;
            &&& next <= start.len()
            &&& input.skip(first.consumed as int) == start.skip(next as int)
            &&& first.result is Err ==> whole == failed::<Seq<ValueView>>(
                first.result->Err_0,
                next,
            )
            &&& first.result is Ok ==> whole == resumed(
                items.push(first.result->Ok_0),
                next,
                read_n(shape, (n - 1) as nat, start.skip(next as int)),
            )
        }),
{
    let input = start.skip(used as int);
    let first = read_value(shape, input);
    lemma_read_value_in_bounds(shape, input);
    lemma_skip_skip(start, used, first.consumed);
    if first.result is Ok {
        let v = first.result->Ok_0;
        let rest = read_n(shape, (n - 1) as nat, input.skip(first.consumed as int));
        if rest.result is Ok {
            let more = rest.result->Ok_0;
            assert(items + (seq![v] + more) =~= items.push(v) + more);
        }
    }
}

/// One more step of decoding values of the shapes `shapes`, after `items`
/// were decoded, by the first `i` shapes, from the first `used` bytes of
/// `start`.
pub proof fn lemma_read_each_step(
    shapes: Seq<Shape>,
    i: int,
    start: Seq<u8>,
    used: nat,
    items: Seq<ValueView>,
)
    requires
        0 <= i < shapes.len(),
        used <= start.len(),
    ensures
        ({
            let input = start.skip(used as int);
            let first = read_value(shapes[i], input);
            let whole = resumed(items, used, read_each(shapes.skip(i), input));
            let next = used + first.consumed;
            &&& next <= start.len()
            &&& input.skip(first.consumed as int) == start.skip(next as int)
            &&& first.result is Err ==> whole == failed::<Seq<ValueView>>(
                first.result->Err_0,
                next,
            )
            &&& first.result is Ok ==> whole == resumed(
                items.push(first.result->Ok_0),
                next,
                read_each(shapes.skip(i + 1), start.skip(next as int)),
            )
        }),
{
    let input = start.skip(used as int);
    let left = shapes.skip(i);
    assert(left[0] == shapes[i]);
    assert(left.skip(1) =~= shapes.skip(i + 1));
    let first = read_value(shapes[i], input);
    lemma_read_value_in_bounds(shapes[i], input);
    lemma_skip_skip(start, used, first.consumed);
    if first.result is Ok {
        let v = first.result->Ok_0;
        let rest = read_each(left.skip(1), input.skip(first.consumed as int));
        if rest.result is Ok {
            let more = rest.result->Ok_0;
            assert(items + (seq![v] + more) =~= items.push(v) + more);
        }
    }
}

/// Decoding values of no more shapes: what was decoded is all.
pub proof fn lemma_read_each_end(
    shapes: Seq<Shape>,
    input: Seq<u8>,
    used: nat,
    items: Seq<ValueView>,
)
    ensures
        resumed(items, used, read_each(shapes.skip(shapes.len() as int), input)) == done(
            items,
            used,
        ),
{
    assert(shapes.skip(shapes.len() as int) =~= Seq::<Shape>::empty());
    assert(items + Seq::<ValueView>::empty() =~= items);
}

/// One more step of decoding `n` pairs, after `items` were decoded from the
/// first `used` bytes of `start`: the key, and then its value.
pub proof fn lemma_read_pairs_step(
    entry: (Shape, Shape),
    n: nat,
    start: Seq<u8>,
    used: nat,
    items: Seq<(ValueView, ValueView)>,
)
    requires
        n > 0,
        used <= start.len(),
    ensures
        ({
            let input = start.skip(used as int);
            let key = read_value(entry.0, input);
            let whole = resumed(items, used, read_pairs(entry, n, input));
            let mid = used + key.consumed;
            let value = read_value(entry.1, start.skip(mid as int));
            let next = mid + value.consumed;
            &&& mid <= start.len()
            &&& input.skip(key.consumed as int) == start.skip(mid as int)
            &&& key.result is Err ==> whole == failed::<Seq<(ValueView, ValueView)>>(
                key.result->Err_0,
                mid,
            )
            &&& key.result is Ok ==> {
                &&& next <= start.len()
                &&& start.skip(mid as int).skip(value.consumed as int) == start.skip(next as int)
                &&& value.result is Err ==> whole == failed::<Seq<(ValueView, ValueView)>>(
                    value.result->Err_0,
                    next,
                )
                &&& value.result is Ok ==> whole == resumed(
                    items.push((key.result->Ok_0, value.result->Ok_0)),
                    next,
                    read_pairs(entry, (n - 1) as nat, start.skip(next as int)),
                )
            }
        }),
{
    let input = start.skip(used as int);
    let key = read_value(entry.0, input);
    lemma_read_value_in_bounds(entry.0, input);
    lemma_skip_skip(start, used, key.consumed);
    if key.result is Ok {
        let mid = used + key.consumed;
        let value = read_value(entry.1, start.skip(mid as int));
        lemma_read_value_in_bounds(entry.1, start.skip(mid as int));
        lemma_skip_skip(start, mid, value.consumed);
        lemma_skip_skip(start, used, key.consumed + value.consumed);
        if value.result is Ok {
            let p = (key.result->Ok_0, value.result->Ok_0);
            let first = read_pair(entry, input);
            assert(first == done(p, key.consumed + value.consumed));
            let rest = read_pairs(entry, (n - 1) as nat, input.skip(first.consumed as int));
            if rest.result is Ok {
                let more = rest.result->Ok_0;
                assert(items + (seq![p] + more) =~= items.push(p) + more);
            }
        }
    }
}

/// Decoding from the start, with nothing decoded yet.
pub proof fn lemma_resumed_start<T>(rest: Decoded<Seq<T>>)
    ensures
        resumed(Seq::<T>::empty(), 0, rest) == rest,
{
    if rest.result is Ok {
        assert(Seq::<T>::empty() + rest.result->Ok_0 =~= rest.result->Ok_0);
    }
}

/// Decoding no more of a run: what was decoded is all.
pub proof fn lemma_resumed_end<T>(items: Seq<T>, used: nat)
    ensures
        resumed(items, used, done(Seq::<T>::empty(), 0)) == done(items, used),
{
    assert(items + Seq::<T>::empty() =~= items);
}

/// `core::str::from_utf8`: the bytes as a string slice where they are valid
/// UTF-8, and nothing where they are not.
#[verifier::external_body]
pub(crate) fn str_from_utf8<'a>(bytes: &'a [u8]) -> (r: Option<&'a str>)
    ensures
        r is Some <==> valid_utf8(bytes@),
        r is Some ==> encode_utf8(r->0@) == bytes@,
{
    core::str::from_utf8(bytes).ok()
}

/// The number of bytes of the UTF-8 encoding that starts with `b0`, read
/// from the high bits of that byte.
pub fn utf8_byte_len(b0: u8) -> (n: Option<usize>)
    ensures
        n == utf8_width(b0),
{
    assert((b0 & 0b1000_0000) == 0 <==> b0 <= 0x7f) by (bit_vector);
    assert((b0 & 0b1110_0000) == 0b1100_0000 <==> 0xc0 <= b0 <= 0xdf) by (bit_vector);
    assert((b0 & 0b1111_0000) == 0b1110_0000 <==> 0xe0 <= b0 <= 0xef) by (bit_vector);
    assert((b0 & 0b1111_1000) == 0b1111_0000 <==> 0xf0 <= b0 <= 0xf7) by (bit_vector);
    if (b0 & 0b1000_0000) == 0 {
        Some(1)
    } else if (b0 & 0b1110_0000) == 0b1100_0000 {
        Some(2)
    } else if (b0 & 0b1111_0000) == 0b1110_0000 {
        Some(3)
    } else if (b0 & 0b1111_1000) == 0b1111_0000 {
        Some(4)
    } else {
        None
    }
}

/// A decoder: borrowed input and the offset of the next byte to read. The
/// offset never passes the end of the input, and only ever grows: what is
/// left to read is always an end of what was left before.
pub struct BinDeserializer<'de> {
    input: &'de [u8],
    pos: usize,
}

impl<'de> View for BinDeserializer<'de> {
    type V = Seq<u8>;

    /// The bytes that are left to read.
    closed spec fn view(&self) -> Seq<u8> {
        self.input@.skip(self.pos as int)
    }
}

impl<'de> Default for BinDeserializer<'de> {
    /// A decoder over no input.
    fn default() -> (d: Self)
        ensures
            d@ == Seq::<u8>::empty(),
    {
        let d = BinDeserializer { input: &[], pos: 0 };
        assert(d@ =~= Seq::<u8>::empty());
        d
    }
}

impl<'de> From<&'de [u8]> for BinDeserializer<'de> {
    /// A decoder at the start of `input`.
    fn from(input: &'de [u8]) -> (d: Self)
        ensures
            d@ == input@,
    {
        let d = BinDeserializer { input, pos: 0 };
        assert(d@ =~= input@);
        d
    }
}

impl<'de> vstd::std_specs::convert::FromSpecImpl<&'de [u8]> for BinDeserializer<'de> {
    open spec fn obeys_from_spec() -> bool {
        true
    }

    open spec fn from_spec(input: &'de [u8]) -> Self {
        Self::at_start(input)
    }
}

impl<'de> BinDeserializer<'de> {
    #[verifier::type_invariant]
    spec fn in_bounds(self) -> bool {
        self.pos <= self.input@.len()
    }

    /// The decoder at the start of `input`.
    pub closed spec fn at_start(input: &'de [u8]) -> Self {
        BinDeserializer { input, pos: 0 }
    }

    /// All of the input is left to read at its start.
    pub broadcast proof fn lemma_at_start(input: &'de [u8])
        ensures
            (#[trigger] Self::at_start(input))@ == input@,
    {
        assert(input@.skip(0) =~= input@);
    }

    /// The next byte, without moving.
    pub fn peek_u8(&self) -> (r: Result<u8, Error>)
        ensures
            r == read_u8(self@).result,
    {
        proof {
            use_type_invariant(self);
        }
        if self.input.len() - self.pos > 0 {
            Ok(self.input[self.pos])
        } else {
            Err(Error::InsufficientData)
        }
    }

    /// The next `N` bytes, without moving.
    pub fn peek_u8_n<const N: usize>(&self) -> (r: Result<&[u8], Error>)
        ensures
            self@.len() >= N ==> r is Ok && r->Ok_0@ == self@.take(N as int),
            self@.len() < N ==> r == Err::<&[u8], Error>(Error::InsufficientData),
    {
        self.peek_u8_nd(N)
    }

    /// The next `n` bytes, without moving.
    pub fn peek_u8_nd(&self, n: usize) -> (r: Result<&'de [u8], Error>)
        ensures
            self@.len() >= n ==> r is Ok && r->Ok_0@ == self@.take(n as int),
            self@.len() < n ==> r == Err::<&[u8], Error>(Error::InsufficientData),
    {
        proof {
            use_type_invariant(self);
        }
        if self.input.len() - self.pos >= n {
            let bytes = slice_subrange(self.input, self.pos, self.pos + n);
            assert(bytes@ =~= self@.take(n as int));
            Ok(bytes)
        } else {
            Err(Error::InsufficientData)
        }
    }

    /// Moves `n` bytes on. There must be that many left.
    pub fn skip_unchecked(&mut self, n: usize)
        requires
            n <= old(self)@.len(),
        ensures
            final(self)@ == old(self)@.skip(n as int),
    {
        proof {
            use_type_invariant(&*self);
        }
        let len = self.input.len();
        assert(self@.len() == len - self.pos);
        self.pos = self.pos + n;
        assert(self@ =~= old(self)@.skip(n as int));
    }

    /// Whatever is there: refused, for the bytes do not say what they are.
    pub fn deserialize_any(&mut self) -> (r: Result<(), Error>)
        ensures
            r == Err::<(), Error>(Error::UnsupportedSelfDescribing),
            final(self)@ == old(self)@,
    {
        Err(Error::UnsupportedSelfDescribing)
    }

    /// A boolean.
    pub fn deserialize_bool(&mut self) -> (r: Result<bool, Error>)
        ensures
            r == read_bool(old(self)@).result,
            final(self)@ == old(self)@.skip(read_bool(old(self)@).consumed as int),
    {
        let b = self.peek_u8()?;
        if b == 0 {
            self.skip_unchecked(1);
            Ok(false)
        } else if b == 1 {
            self.skip_unchecked(1);
            Ok(true)
        } else {
            Err(Error::MalformedBool)
        }
    }

    /// The number of bytes that are left to read.
    fn left(&self) -> (n: usize)
        ensures
            n == self@.len(),
    {
        proof {
            use_type_invariant(self);
        }
        self.input.len() - self.pos
    }

    /// A signed byte.
    pub fn deserialize_i8(&mut self) -> (r: Result<i8, Error>)
        ensures
            r == read_i8(old(self)@).result,
            final(self)@ == old(self)@.skip(read_i8(old(self)@).consumed as int),
    {
        let res = self.peek_u8()?;
        self.skip_unchecked(1);
        Ok(i8_from_bits(res))
    }

    /// A signed 16-bit integer.
    pub fn deserialize_i16(&mut self) -> (r: Result<i16, Error>)
        ensures
            r == read_i16(old(self)@).result,
            final(self)@ == old(self)@.skip(read_i16(old(self)@).consumed as int),
    {
        let res = self.deserialize_u16()?;
        Ok(i16_from_bits(res))
    }

    /// A signed 32-bit integer.
    pub fn deserialize_i32(&mut self) -> (r: Result<i32, Error>)
        ensures
            r == read_i32(old(self)@).result,
            final(self)@ == old(self)@.skip(read_i32(old(self)@).consumed as int),
    {
        let res = self.deserialize_u32()?;
        Ok(i32_from_bits(res))
    }

    /// A signed 64-bit integer.
    pub fn deserialize_i64(&mut self) -> (r: Result<i64, Error>)
        ensures
            r == read_i64(old(self)@).result,
            final(self)@ == old(self)@.skip(read_i64(old(self)@).consumed as int),
    {
        let res = self.deserialize_u64()?;
        Ok(i64_from_bits(res))
    }

    /// A byte.
    pub fn deserialize_u8(&mut self) -> (r: Result<u8, Error>)
        ensures
            r == read_u8(old(self)@).result,
            final(self)@ == old(self)@.skip(read_u8(old(self)@).consumed as int),
    {
        let res = self.peek_u8()?;
        self.skip_unchecked(1);
        Ok(res)
    }

    /// An unsigned 16-bit integer.
    pub fn deserialize_u16(&mut self) -> (r: Result<u16, Error>)
        ensures
            r == read_u16(old(self)@).result,
            final(self)@ == old(self)@.skip(read_u16(old(self)@).consumed as int),
    {
        let res = self.peek_u8_n::<2>()?;
        let bytes: [u8; 2] = [res[0], res[1]];
        assert(bytes@ =~= res@);
        self.skip_unchecked(2);
        Ok(u16_from_ne_bytes(bytes))
    }

    /// An unsigned 32-bit integer.
    pub fn deserialize_u32(&mut self) -> (r: Result<u32, Error>)
        ensures
            r == read_u32(old(self)@).result,
            final(self)@ == old(self)@.skip(read_u32(old(self)@).consumed as int),
    {
        let res = self.peek_u8_n::<4>()?;
        let bytes: [u8; 4] = [res[0], res[1], res[2], res[3]];
        assert(bytes@ =~= res@);
        self.skip_unchecked(4);
        Ok(u32_from_ne_bytes(bytes))
    }

    /// An unsigned 64-bit integer.
    pub fn deserialize_u64(&mut self) -> (r: Result<u64, Error>)
        ensures
            r == read_u64(old(self)@).result,
            final(self)@ == old(self)@.skip(read_u64(old(self)@).consumed as int),
    {
        let res = self.peek_u8_n::<8>()?;
        let bytes: [u8; 8] = [res[0], res[1], res[2], res[3], res[4], res[5], res[6], res[7]];
        assert(bytes@ =~= res@);
        self.skip_unchecked(8);
        Ok(u64_from_ne_bytes(bytes))
    }

    /// A 32-bit float, as its bit pattern.
    pub fn deserialize_f32(&mut self) -> (r: Result<u32, Error>)
        ensures
            r == read_u32(old(self)@).result,
            final(self)@ == old(self)@.skip(read_u32(old(self)@).consumed as int),
    {
        self.deserialize_u32()
    }

    /// A 64-bit float, as its bit pattern.
    pub fn deserialize_f64(&mut self) -> (r: Result<u64, Error>)
        ensures
            r == read_u64(old(self)@).result,
            final(self)@ == old(self)@.skip(read_u64(old(self)@).consumed as int),
    {
        self.deserialize_u64()
    }

    /// A character.
    pub fn deserialize_char(&mut self) -> (r: Result<char, Error>)
        ensures
            r == read_char(old(self)@).result,
            final(self)@ == old(self)@.skip(read_char(old(self)@).consumed as int),
    {
        let b0 = self.peek_u8()?;
        let n = match utf8_byte_len(b0) {
            Some(n) => n,
            None => {
                return Err(Error::MalformedUTF8);
            },
        };
        let bytes = self.peek_u8_nd(n)?;
        let res = match str_from_utf8(bytes) {
            Some(res) => res,
            None => {
                return Err(Error::MalformedUTF8);
            },
        };
        proof {
            lemma_decode_of_encode(res@);
            assert(res@.len() > 0) by {
                if res@.len() == 0 {
                    assert(encode_utf8(res@).len() == 0);
                }
            }
        }
        let res_char = res.get_char(0);
        self.skip_unchecked(n);
        Ok(res_char)
    }

    /// A string, borrowed from the input.
    pub fn deserialize_str(&mut self) -> (r: Result<&'de str, Error>)
        ensures
            viewed(r) == read_str(old(self)@).result,
            final(self)@ == old(self)@.skip(read_str(old(self)@).consumed as int),
    {
        let len = self.deserialize_u32()?;
        if len as u64 > self.left() as u64 {
            return Err(Error::InsufficientData);
        }
        let data = self.peek_u8_nd(len as usize)?;
        let data_str = match str_from_utf8(data) {
            Some(s) => s,
            None => {
                return Err(Error::MalformedUTF8);
            },
        };
        proof {
            lemma_decode_of_encode(data_str@);
        }
        self.skip_unchecked(len as usize);
        assert(old(self)@.skip(4).skip(len as int) =~= old(self)@.skip(4 + len));
        Ok(data_str)
    }

    /// A string of its own.
    pub fn deserialize_string(&mut self) -> (r: Result<String, Error>)
        ensures
            viewed(r) == read_str(old(self)@).result,
            final(self)@ == old(self)@.skip(read_str(old(self)@).consumed as int),
    {
        let data_str = self.deserialize_str()?;
        Ok(data_str.to_owned())
    }

    /// A byte buffer, borrowed from the input.
    pub fn deserialize_bytes(&mut self) -> (r: Result<&'de [u8], Error>)
        ensures
            viewed(r) == read_bytes(old(self)@).result,
            final(self)@ == old(self)@.skip(read_bytes(old(self)@).consumed as int),
    {
        let len = self.deserialize_u64()?;
        if len > self.left() as u64 {
            return Err(Error::InsufficientData);
        }
        let data = self.peek_u8_nd(len as usize)?;
        self.skip_unchecked(len as usize);
        assert(old(self)@.skip(8).skip(len as int) =~= old(self)@.skip(8 + len));
        Ok(data)
    }

    /// A byte buffer of its own.
    pub fn deserialize_byte_buf(&mut self) -> (r: Result<Vec<u8>, Error>)
        ensures
            viewed(r) == read_bytes(old(self)@).result,
            final(self)@ == old(self)@.skip(read_bytes(old(self)@).consumed as int),
    {
        let data = self.deserialize_bytes()?;
        Ok(slice_to_vec(data))
    }

    /// The tag of an option: whether a value follows.
    pub fn deserialize_option_tag(&mut self) -> (r: Result<bool, Error>)
        ensures
            r == read_option_tag(old(self)@).result,
            final(self)@ == old(self)@.skip(read_option_tag(old(self)@).consumed as int),
    {
        let marker = self.peek_u8()?;
        if marker == 0 {
            self.skip_unchecked(1);
            Ok(false)
        } else if marker == 1 {
            self.skip_unchecked(1);
            Ok(true)
        } else {
            Err(Error::MalformedOption)
        }
    }

    /// The number of elements of a sequence, or of pairs of a map: a `u32`.
    pub fn deserialize_len(&mut self) -> (r: Result<usize, Error>)
        ensures
            r is Ok <==> read_u32(old(self)@).result is Ok,
            r is Ok ==> r->Ok_0 == read_u32(old(self)@).result->Ok_0,
            r is Err ==> r->Err_0 == read_u32(old(self)@).result->Err_0,
            final(self)@ == old(self)@.skip(read_u32(old(self)@).consumed as int),
    {
        let len = self.deserialize_u32()?;
        Ok(len as usize)
    }

    /// The unit value: nothing is read.
    pub fn deserialize_unit(&mut self) -> (r: Result<(), Error>)
        ensures
            r is Ok,
            final(self)@ == old(self)@,
    {
        Ok(())
    }

    /// A struct without fields: nothing is read.
    pub fn deserialize_unit_struct(&mut self, _name: &'static str) -> (r: Result<(), Error>)
        ensures
            r is Ok,
            final(self)@ == old(self)@,
    {
        self.deserialize_unit()
    }

    /// The tag of a variant: one byte, the index of the variant among those
    /// declared. It is not held against their number.
    pub fn deserialize_identifier(&mut self) -> (r: Result<u8, Error>)
        ensures
            r == read_u8(old(self)@).result,
            final(self)@ == old(self)@.skip(read_u8(old(self)@).consumed as int),
    {
        self.deserialize_u8()
    }

    /// A value of fixed layout.
    pub fn deserialize_primitive(&mut self, shape: PrimitiveShape) -> (r: Result<Primitive, Error>)
        ensures
            r == read_primitive(shape, old(self)@).result,
            final(self)@ == old(self)@.skip(read_primitive(shape, old(self)@).consumed as int),
    {
        match shape {
            PrimitiveShape::Bool => Ok(Primitive::Bool(self.deserialize_bool()?)),
            PrimitiveShape::I8 => Ok(Primitive::I8(self.deserialize_i8()?)),
            PrimitiveShape::I16 => Ok(Primitive::I16(self.deserialize_i16()?)),
            PrimitiveShape::I32 => Ok(Primitive::I32(self.deserialize_i32()?)),
            PrimitiveShape::I64 => Ok(Primitive::I64(self.deserialize_i64()?)),
            PrimitiveShape::U8 => Ok(Primitive::U8(self.deserialize_u8()?)),
            PrimitiveShape::U16 => Ok(Primitive::U16(self.deserialize_u16()?)),
            PrimitiveShape::U32 => Ok(Primitive::U32(self.deserialize_u32()?)),
            PrimitiveShape::U64 => Ok(Primitive::U64(self.deserialize_u64()?)),
            PrimitiveShape::F32 => Ok(Primitive::F32(self.deserialize_f32()?)),
            PrimitiveShape::F64 => Ok(Primitive::F64(self.deserialize_f64()?)),
            PrimitiveShape::Char => Ok(Primitive::Char(self.deserialize_char()?)),
            PrimitiveShape::Unit => {
                self.deserialize_unit()?;
                assert(self@ =~= old(self)@.skip(0));
                Ok(Primitive::Unit)
            },
        }
    }

    /// An option: its tag and, where the tag says so, a value of the shape
    /// `inner`.
    pub fn deserialize_option(&mut self, inner: &Shape) -> (r: Result<Value, Error>)
        ensures
            viewed(r) == read_value(Shape::Optional(Box::new(*inner)), old(self)@).result,
            final(self)@ == old(self)@.skip(
                read_value(Shape::Optional(Box::new(*inner)), old(self)@).consumed as int,
            ),
        decreases inner, 1nat,
    {
        let present = self.deserialize_option_tag()?;
        if present {
            proof {
                lemma_read_value_in_bounds(*inner, self@);
                lemma_skip_skip(old(self)@, 1, read_value(*inner, self@).consumed);
            }
            let v = self.deserialize_value(inner)?;
            Ok(Value::Present(Box::new(v)))
        } else {
            Ok(Value::Absent)
        }
    }

    /// A wrapper round one value of the shape `inner`: that value, and
    /// nothing else.
    pub fn deserialize_newtype_struct(&mut self, _name: &'static str, inner: &Shape) -> (r: Result<
        Value,
        Error,
    >)
        ensures
            viewed(r) == read_value(Shape::NewType(Box::new(*inner)), old(self)@).result,
            final(self)@ == old(self)@.skip(
                read_value(Shape::NewType(Box::new(*inner)), old(self)@).consumed as int,
            ),
        decreases inner, 1nat,
    {
        let v = self.deserialize_value(inner)?;
        Ok(Value::NewType(Box::new(v)))
    }

    /// `len` values of the shape `elem`, one after the other.
    fn deserialize_n(&mut self, elem: &Shape, len: usize) -> (r: Result<Vec<Value>, Error>)
        ensures
            viewed_all(r) == read_n(*elem, len as nat, old(self)@).result,
            final(self)@ == old(self)@.skip(read_n(*elem, len as nat, old(self)@).consumed as int),
        decreases elem, 2nat,
    {
        let ghost start = self@;
        let ghost whole = read_n(*elem, len as nat, start);
        let ghost mut used: nat = 0;
        let mut out: Vec<Value> = Vec::new();
        let mut access = Sequenced { de: &mut *self, len };
        proof {
            lemma_skip_none(start);
            lemma_resumed_start(whole);
            assert(views(out@) =~= Seq::<ValueView>::empty());
        }
        loop
            invariant
                start == old(self)@,
                whole == read_n(*elem, len as nat, start),
                whole == resumed(
                    views(out@),
                    used,
                    read_n(*elem, access.len as nat, start.skip(used as int)),
                ),
                used <= start.len(),
                access.de@ == start.skip(used as int),
                *final(access.de) == *after_borrow(self),
            ensures
                viewed_all(Ok::<Vec<Value>, Error>(out)) == whole.result,
                access.de@ == start.skip(whole.consumed as int),
                *final(access.de) == *after_borrow(self),
            decreases access.len,
        {
            proof {
                if access.len > 0 {
                    lemma_read_n_step(*elem, access.len as nat, start, used, views(out@));
                } else {
                    lemma_resumed_end(views(out@), used);
                }
            }
            match access.next_element_seed(elem) {
                Err(e) => {
                    return Err(e);
                },
                Ok(None) => {
                    break ;
                },
                Ok(Some(v)) => {
                    proof {
                        lemma_views_push(out@, v);
                        used = used + read_value(*elem, start.skip(used as int)).consumed;
                    }
                    out.push(v);
                },
            }
        }
        Ok(out)
    }

    /// A sequence of elements of the shape `elem`: a `u32`, and as many
    /// elements.
    pub fn deserialize_seq(&mut self, elem: &Shape) -> (r: Result<Value, Error>)
        ensures
            viewed(r) == read_value(Shape::Sequence(Box::new(*elem)), old(self)@).result,
            final(self)@ == old(self)@.skip(
                read_value(Shape::Sequence(Box::new(*elem)), old(self)@).consumed as int,
            ),
        decreases elem, 3nat,
    {
        let len = self.deserialize_len()?;
        proof {
            lemma_read_n_in_bounds(*elem, len as nat, self@);
            lemma_skip_skip(old(self)@, 4, read_n(*elem, len as nat, self@).consumed);
        }
        let items = self.deserialize_n(elem, len)?;
        Ok(Value::Sequence(items))
    }

    /// Values of the shapes `shapes`, one after the other, without a count.
    fn deserialize_each(&mut self, shapes: &Vec<Shape>) -> (r: Result<Vec<Value>, Error>)
        ensures
            viewed_all(r) == read_each(shapes@, old(self)@).result,
            final(self)@ == old(self)@.skip(read_each(shapes@, old(self)@).consumed as int),
        decreases shapes, 2nat,
    {
        let ghost start = self@;
        let ghost whole = read_each(shapes@, start);
        let ghost mut used: nat = 0;
        let mut out: Vec<Value> = Vec::new();
        let mut i: usize = 0;
        let mut access = Sequenced { de: &mut *self, len: shapes.len() };
        proof {
            lemma_skip_none(start);
            lemma_resumed_start(whole);
            assert(shapes@.skip(0) =~= shapes@);
            assert(views(out@) =~= Seq::<ValueView>::empty());
        }
        while i < shapes.len()
            invariant
                i <= shapes.len(),
                access.len == shapes.len() - i,
                start == old(self)@,
                whole == read_each(shapes@, start),
                whole == resumed(
                    views(out@),
                    used,
                    read_each(shapes@.skip(i as int), start.skip(used as int)),
                ),
                used <= start.len(),
                access.de@ == start.skip(used as int),
                *final(access.de) == *after_borrow(self),
            decreases shapes.len() - i,
        {
            proof {
                lemma_read_each_step(shapes@, i as int, start, used, views(out@));
            }
            match access.next_element_seed(&shapes[i]) {
                Err(e) => {
                    return Err(e);
                },
                Ok(None) => {
                    unreached()
                },
                Ok(Some(v)) => {
                    proof {
                        lemma_views_push(out@, v);
                        used = used + read_value(
                            shapes@[i as int],
                            start.skip(used as int),
                        ).consumed;
                    }
                    out.push(v);
                    i = i + 1;
                },
            }
        }
        proof {
            lemma_read_each_end(shapes@, start.skip(used as int), used, views(out@));
        }
        Ok(out)
    }

    /// A tuple: its elements, of the shapes `elems`, without a count.
    pub fn deserialize_tuple(&mut self, elems: &Vec<Shape>) -> (r: Result<Value, Error>)
        ensures
            viewed(r) == read_value(Shape::Tuple(*elems), old(self)@).result,
            final(self)@ == old(self)@.skip(
                read_value(Shape::Tuple(*elems), old(self)@).consumed as int,
            ),
        decreases elems, 3nat,
    {
        let items = self.deserialize_each(elems)?;
        Ok(Value::Tuple(items))
    }

    /// A tuple struct: its fields, of the shapes `elems`, without a count.
    pub fn deserialize_tuple_struct(&mut self, _name: &'static str, elems: &Vec<Shape>) -> (r:
        Result<Value, Error>)
        ensures
            viewed(r) == read_value(Shape::Tuple(*elems), old(self)@).result,
            final(self)@ == old(self)@.skip(
                read_value(Shape::Tuple(*elems), old(self)@).consumed as int,
            ),
        decreases elems, 4nat,
    {
        self.deserialize_tuple(elems)
    }

    /// `len` pairs with keys and values of the shapes `entry`, one after
    /// the other, each key before its value.
    fn deserialize_pairs(&mut self, entry: &(Shape, Shape), len: usize) -> (r: Result<
        Vec<(Value, Value)>,
        Error,
    >)
        ensures
            viewed_pairs(r) == read_pairs(*entry, len as nat, old(self)@).result,
            final(self)@ == old(self)@.skip(
                read_pairs(*entry, len as nat, old(self)@).consumed as int,
            ),
        decreases entry, 2nat,
    {
        let ghost start = self@;
        let ghost whole = read_pairs(*entry, len as nat, start);
        let ghost mut used: nat = 0;
        let mut out: Vec<(Value, Value)> = Vec::new();
        let mut access = Sequenced { de: &mut *self, len };
        proof {
            lemma_skip_none(start);
            lemma_resumed_start(whole);
            assert(pair_views(out@) =~= Seq::<(ValueView, ValueView)>::empty());
        }
        loop
            invariant
                start == old(self)@,
                whole == read_pairs(*entry, len as nat, start),
                whole == resumed(
                    pair_views(out@),
                    used,
                    read_pairs(*entry, access.len as nat, start.skip(used as int)),
                ),
                used <= start.len(),
                access.de@ == start.skip(used as int),
                *final(access.de) == *after_borrow(self),
            ensures
                viewed_pairs(Ok::<Vec<(Value, Value)>, Error>(out)) == whole.result,
                access.de@ == start.skip(whole.consumed as int),
                *final(access.de) == *after_borrow(self),
            decreases access.len,
        {
            let ghost mid = used + read_value(entry.0, start.skip(used as int)).consumed;
            proof {
                if access.len > 0 {
                    lemma_read_pairs_step(*entry, access.len as nat, start, used, pair_views(out@));
                } else {
                    lemma_resumed_end(pair_views(out@), used);
                }
            }
            let key = match access.next_key_seed(&entry.0) {
                Err(e) => {
                    return Err(e);
                },
                Ok(None) => {
                    break ;
                },
                Ok(Some(k)) => k,
            };
            let value = match access.next_value_seed(&entry.1) {
                Err(e) => {
                    return Err(e);
                },
                Ok(v) => v,
            };
            proof {
                lemma_pair_views_push(out@, (key, value));
                used = mid + read_value(entry.1, start.skip(mid as int)).consumed;
            }
            out.push((key, value));
        }
        Ok(out)
    }

    /// A map with keys and values of the shapes `entry`: a `u32`, and as
    /// many pairs, each key before its value.
    pub fn deserialize_map(&mut self, entry: &(Shape, Shape)) -> (r: Result<Value, Error>)
        ensures
            viewed(r) == read_value(Shape::Mapping(Box::new(*entry)), old(self)@).result,
            final(self)@ == old(self)@.skip(
                read_value(Shape::Mapping(Box::new(*entry)), old(self)@).consumed as int,
            ),
        decreases entry, 3nat,
    {
        let len = self.deserialize_len()?;
        proof {
            lemma_read_pairs_in_bounds(*entry, len as nat, self@);
            lemma_skip_skip(old(self)@, 4, read_pairs(*entry, len as nat, self@).consumed);
        }
        let pairs = self.deserialize_pairs(entry, len)?;
        Ok(Value::Mapping(pairs))
    }

    /// A struct: the values of its fields, of the shapes `fields`, without
    /// names and without a count.
    pub fn deserialize_struct(&mut self, _name: &'static str, fields: &Vec<Shape>) -> (r: Result<
        Value,
        Error,
    >)
        ensures
            viewed(r) == read_value(Shape::Struct(*fields), old(self)@).result,
            final(self)@ == old(self)@.skip(
                read_value(Shape::Struct(*fields), old(self)@).consumed as int,
            ),
        decreases fields, 3nat,
    {
        let items = self.deserialize_each(fields)?;
        Ok(Value::Struct(items))
    }

    /// The payload of a variant of the shape `variant`, asked of what is
    /// left of the variant once its tag is read.
    fn deserialize_payload<'a>(access: Enum<'a, 'de>, variant: &VariantShape) -> (r: Result<
        Payload,
        Error,
    >)
        ensures
            viewed(r) == read_payload(*variant, old(access.de)@).result,
            final(access.de)@ == old(access.de)@.skip(
                read_payload(*variant, old(access.de)@).consumed as int,
            ),
        decreases variant, 4nat,
    {
        match variant {
            VariantShape::Unit => {
                proof {
                    lemma_skip_none(access.de@);
                }
                access.unit_variant()?;
                Ok(Payload::Unit)
            },
            VariantShape::NewType(inner) => {
                let v = access.newtype_variant_seed(inner)?;
                Ok(Payload::NewType(Box::new(v)))
            },
            VariantShape::Tuple(elems) => {
                let items = access.tuple_variant(elems)?;
                Ok(Payload::Tuple(items))
            },
            VariantShape::Struct(fields) => {
                let items = access.struct_variant(fields)?;
                Ok(Payload::Struct(items))
            },
        }
    }

    /// An enum with the variants `variants`: a one-byte tag, and the
    /// payload of the variant that it names. A tag that names none of the
    /// variants is refused once it is read.
    pub fn deserialize_enum(&mut self, _name: &'static str, variants: &Vec<VariantShape>) -> (r:
        Result<Value, Error>)
        ensures
            viewed(r) == read_value(Shape::Enum(*variants), old(self)@).result,
            final(self)@ == old(self)@.skip(
                read_value(Shape::Enum(*variants), old(self)@).consumed as int,
            ),
        decreases variants, 1nat,
    {
        let access = Enum { de: &mut *self };
        let (tag, access) = access.variant_seed()?;
        if tag as usize >= variants.len() {
            return Err(Error::UnknownVariant);
        }
        proof {
            let rest = old(self)@.skip(1);
            lemma_read_payload_in_bounds(variants@[tag as int], rest);
            lemma_skip_skip(old(self)@, 1, read_payload(variants@[tag as int], rest).consumed);
        }
        let payload = Self::deserialize_payload(access, &variants[tag as usize])?;
        Ok(Value::Variant(tag as u32, payload))
    }

    /// A value of the shape `shape`.
    pub fn deserialize_value(&mut self, shape: &Shape) -> (r: Result<Value, Error>)
        ensures
            viewed(r) == read_value(*shape, old(self)@).result,
            final(self)@ == old(self)@.skip(read_value(*shape, old(self)@).consumed as int),
        decreases shape, 0nat,
    {
        match shape {
            Shape::Primitive(p) => Ok(Value::Primitive(self.deserialize_primitive(*p)?)),
            Shape::Str => Ok(Value::Str(self.deserialize_string()?)),
            Shape::Bytes => Ok(Value::Bytes(self.deserialize_byte_buf()?)),
            Shape::Optional(inner) => self.deserialize_option(inner),
            Shape::NewType(inner) => self.deserialize_newtype_struct("", inner),
            Shape::Sequence(elem) => self.deserialize_seq(elem),
            Shape::Tuple(elems) => self.deserialize_tuple(elems),
            Shape::Mapping(entry) => self.deserialize_map(entry),
            Shape::Struct(fields) => self.deserialize_struct("", fields),
            Shape::Enum(variants) => self.deserialize_enum("", variants),
        }
    }

    /// A value to pass over: refused like any value of unknown shape.
    pub fn deserialize_ignored_any(&mut self) -> (r: Result<(), Error>)
        ensures
            r == Err::<(), Error>(Error::UnsupportedSelfDescribing),
            final(self)@ == old(self)@,
    {
        self.deserialize_any()
    }
}

/// The elements of a collection that are still to be decoded: the decoder
/// that they are read from, and their number. Each element that is pulled
/// leaves one less; none is pulled once none is left.
pub struct Sequenced<'a, 'de> {
    pub de: &'a mut BinDeserializer<'de>,
    pub len: usize,
}

impl<'a, 'de> Sequenced<'a, 'de> {
    /// The next element of a sequence or of a tuple, of the shape `seed`;
    /// nothing, and nothing read, where none is left.
    pub fn next_element_seed(&mut self, seed: &Shape) -> (r: Result<Option<Value>, Error>)
        ensures
            viewed_next(r) == read_next(*seed, old(self).len as nat, old(self).de@).result,
            final(self).de@ == old(self).de@.skip(
                read_next(*seed, old(self).len as nat, old(self).de@).consumed as int,
            ),
            final(self).len == left_after(
                old(self).len as nat,
                read_next(*seed, old(self).len as nat, old(self).de@),
            ),
            *final(final(self).de) == *final(old(self).de),
        decreases seed, 1nat,
    {
        if self.len == 0 {
            assert(self.de@.skip(0) =~= self.de@);
            Ok(None)
        } else {
            let val = self.de.deserialize_value(seed)?;
            self.len = self.len - 1;
            Ok(Some(val))
        }
    }

    /// The next key of a map, of the shape `seed`; nothing, and nothing
    /// read, where no pair is left.
    pub fn next_key_seed(&mut self, seed: &Shape) -> (r: Result<Option<Value>, Error>)
        ensures
            viewed_next(r) == read_next(*seed, old(self).len as nat, old(self).de@).result,
            final(self).de@ == old(self).de@.skip(
                read_next(*seed, old(self).len as nat, old(self).de@).consumed as int,
            ),
            final(self).len == left_after(
                old(self).len as nat,
                read_next(*seed, old(self).len as nat, old(self).de@),
            ),
            *final(final(self).de) == *final(old(self).de),
        decreases seed, 1nat,
    {
        if self.len == 0 {
            assert(self.de@.skip(0) =~= self.de@);
            Ok(None)
        } else {
            let val = self.de.deserialize_value(seed)?;
            self.len = self.len - 1;
            Ok(Some(val))
        }
    }

    /// The value of the key that was pulled last, of the shape `seed`. The
    /// number of pairs that are left is as the key left it.
    pub fn next_value_seed(&mut self, seed: &Shape) -> (r: Result<Value, Error>)
        ensures
            viewed(r) == read_value(*seed, old(self).de@).result,
            final(self).de@ == old(self).de@.skip(
                read_value(*seed, old(self).de@).consumed as int,
            ),
            final(self).len == old(self).len,
            *final(final(self).de) == *final(old(self).de),
        decreases seed, 1nat,
    {
        self.de.deserialize_value(seed)
    }
}

/// A variant that is still to be decoded: the decoder that it is read from.
/// Its tag is read first, and then the payload that the caller asks for.
pub struct Enum<'a, 'de> {
    pub de: &'a mut BinDeserializer<'de>,
}

impl<'a, 'de> Enum<'a, 'de> {
    /// The tag of the variant, and what is left to decode of it.
    pub fn variant_seed(self) -> (r: Result<(u8, Enum<'a, 'de>), Error>)
        ensures
            read_u8(old(self.de)@).result is Err ==> r is Err && r->Err_0 == read_u8(
                old(self.de)@,
            ).result->Err_0 && final(self.de)@ == old(self.de)@,
            read_u8(old(self.de)@).result is Ok ==> r is Ok && r->Ok_0.0 == old(self.de)@[0]
                && r->Ok_0.1.de@ == old(self.de)@.skip(1),
            r is Ok ==> *final(r->Ok_0.1.de) == *final(self.de),
    {
        let idx = self.de.deserialize_identifier()?;
        Ok((idx, self))
    }

    /// No payload: nothing is read.
    pub fn unit_variant(self) -> (r: Result<(), Error>)
        ensures
            r is Ok,
            final(self.de)@ == old(self.de)@,
    {
        Ok(())
    }

    /// The payload of a variant with one value, of the shape `seed`.
    pub fn newtype_variant_seed(self, seed: &Shape) -> (r: Result<Value, Error>)
        ensures
            viewed(r) == read_value(*seed, old(self.de)@).result,
            final(self.de)@ == old(self.de)@.skip(read_value(*seed, old(self.de)@).consumed as int),
        decreases seed, 1nat,
    {
        self.de.deserialize_value(seed)
    }

    /// The payload of a tuple variant: its elements, of the shapes `elems`.
    pub fn tuple_variant(self, elems: &Vec<Shape>) -> (r: Result<Vec<Value>, Error>)
        ensures
            viewed_all(r) == read_each(elems@, old(self.de)@).result,
            final(self.de)@ == old(self.de)@.skip(read_each(elems@, old(self.de)@).consumed as int),
        decreases elems, 3nat,
    {
        self.de.deserialize_each(elems)
    }

    /// The payload of a struct variant: the values of its fields, of the
    /// shapes `fields`, with no count before them.
    pub fn struct_variant(self, fields: &Vec<Shape>) -> (r: Result<Vec<Value>, Error>)
        ensures
            viewed_all(r) == read_each(fields@, old(self.de)@).result,
            final(self.de)@ == old(self.de)@.skip(
                read_each(fields@, old(self.de)@).consumed as int,
            ),
        decreases fields, 3nat,
    {
        self.de.deserialize_each(fields)
    }
}

/// Characters are what their UTF-8 encoding decodes to.
pub proof fn lemma_decode_of_encode(chars: Seq<char>)
    ensures
        decode_utf8(encode_utf8(chars)) == chars,
        valid_utf8(encode_utf8(chars)),
{
    vstd::utf8::encode_utf8_decode_utf8(chars);
    vstd::utf8::encode_utf8_valid_utf8(chars);
}

} // verus!
