//! The encoder: one operation per shape of value, each of which appends the
//! bytes of that shape to a growing buffer.

use crate::wire::{
    i16_bits, i16_to_bits, i32_bits, i32_to_bits, i64_bits, i64_to_bits, i8_bits, i8_to_bits,
    u16_bytes, u16_to_ne_bytes, u32_bytes, u32_to_ne_bytes, u64_bytes, u64_to_ne_bytes,
};
use crate::value::{pair_views, views, Payload, PayloadView, Primitive, Value, ValueView};
use vstd::prelude::*;
use vstd::utf8::encode_utf8;

verus! {

/// Why a value could not be encoded.
///
/// A length that exceeds its prefix can only be met while encoding: what was
/// encoded has lengths that fit, so decoding has errors of its own.
#[derive(Debug, PartialEq, Eq)]
pub enum Error {
    /// A string of more than 2^32 - 1 bytes.
    StringTooLong,
    /// A map of more than 2^32 - 1 pairs.
    MapTooLong,
    /// A byte buffer of more than 2^64 - 1 bytes.
    ByteBufferTooLong,
    /// A variant index above 255.
    VariantIndexTooLarge,
    /// A sequence of more than 2^32 - 1 elements.
    SequenceTooLong,
    /// A sequence whose number of elements is not known before its first
    /// element.
    SequenceLengthUnknown,
    /// A map whose number of pairs is not known before its first pair.
    MapLengthUnknown,
    /// A failure that the caller raised, with its message.
    Custom(String),
}

impl Error {
    /// The text of the error: the name of its kind, or the message of a
    /// custom one.
    pub open spec fn text(self) -> Seq<char> {
        match self {
            Error::StringTooLong => "StringTooLong"@,
            Error::MapTooLong => "MapTooLong"@,
            Error::ByteBufferTooLong => "ByteBufferTooLong"@,
            Error::VariantIndexTooLarge => "VariantIndexTooLarge"@,
            Error::SequenceTooLong => "SequenceTooLong"@,
            Error::SequenceLengthUnknown => "SequenceLengthUnknown"@,
            Error::MapLengthUnknown => "MapLengthUnknown"@,
            Error::Custom(msg) => msg@,
        }
    }

    /// A custom error with the message `msg`.
    pub fn custom(msg: &str) -> (e: Error)
        ensures
            e matches Error::Custom(m) && m@ == msg@,
    {
        Error::Custom(msg.to_owned())
    }

    /// The error as text.
    pub fn to_string(&self) -> (s: String)
        ensures
            s@ == self.text(),
    {
        match self {
            Error::StringTooLong => "StringTooLong".to_owned(),
            Error::MapTooLong => "MapTooLong".to_owned(),
            Error::ByteBufferTooLong => "ByteBufferTooLong".to_owned(),
            Error::VariantIndexTooLarge => "VariantIndexTooLarge".to_owned(),
            Error::SequenceTooLong => "SequenceTooLong".to_owned(),
            Error::SequenceLengthUnknown => "SequenceLengthUnknown".to_owned(),
            Error::MapLengthUnknown => "MapLengthUnknown".to_owned(),
            Error::Custom(msg) => msg.clone(),
        }
    }
}

/// The byte of a boolean: 1 for `true`, 0 for `false`.
pub open spec fn bool_byte(v: bool) -> u8 {
    if v {
        1
    } else {
        0
    }
}

/// The largest number of bytes, elements or pairs that a 32-bit prefix can
/// announce.
pub open spec fn max_prefixed_len() -> nat {
    0xffff_ffff
}

/// The largest variant index that the one-byte tag can hold.
pub open spec fn max_variant_index() -> nat {
    0xff
}

/// What encoding a value does: the bytes that it appends, and the error
/// with which it stops, if it does. Bytes appended before an error stay.
pub struct Written {
    pub bytes: Seq<u8>,
    pub error: Option<Error>,
}

/// Bytes written, without an error.
pub open spec fn wrote(bytes: Seq<u8>) -> Written {
    Written { bytes, error: None }
}

/// An error, with nothing written.
pub open spec fn refused(error: Error) -> Written {
    Written { bytes: Seq::empty(), error: Some(error) }
}

/// One step and then another, unless the first one stops with an error.
pub open spec fn followed_by(first: Written, second: Written) -> Written {
    if first.error is Some {
        first
    } else {
        Written { bytes: first.bytes + second.bytes, error: second.error }
    }
}

/// Whether a call that returns `r` reports that encoding stopped with
/// `error`, or that it did not stop where there is none.
pub open spec fn reports(r: Result<(), Error>, error: Option<Error>) -> bool {
    match error {
        None => r is Ok,
        Some(e) => r == Err::<(), Error>(e),
    }
}

/// The bytes of a value of fixed layout.
pub open spec fn primitive_bytes(p: Primitive) -> Seq<u8> {
    match p {
        Primitive::Bool(v) => seq![bool_byte(v)],
        Primitive::I8(v) => seq![i8_bits(v)],
        Primitive::I16(v) => u16_bytes(i16_bits(v)),
        Primitive::I32(v) => u32_bytes(i32_bits(v)),
        Primitive::I64(v) => u64_bytes(i64_bits(v)),
        Primitive::U8(v) => seq![v],
        Primitive::U16(v) => u16_bytes(v),
        Primitive::U32(v) => u32_bytes(v),
        Primitive::U64(v) => u64_bytes(v),
        Primitive::F32(bits) => u32_bytes(bits),
        Primitive::F64(bits) => u64_bytes(bits),
        Primitive::Char(c) => encode_utf8(seq![c]),
        Primitive::Unit => Seq::empty(),
    }
}

/// Encoding a string.
pub open spec fn write_str(chars: Seq<char>) -> Written {
    if encode_utf8(chars).len() > max_prefixed_len() {
        refused(Error::StringTooLong)
    } else {
        wrote(u32_bytes(encode_utf8(chars).len() as u32) + encode_utf8(chars))
    }
}

/// Encoding a byte buffer.
pub open spec fn write_bytes(bytes: Seq<u8>) -> Written {
    if bytes.len() > u64::MAX {
        refused(Error::ByteBufferTooLong)
    } else {
        wrote(u64_bytes(bytes.len() as u64) + bytes)
    }
}

/// Encoding the tag of a variant.
pub open spec fn write_variant_tag(index: u32) -> Written {
    if index > max_variant_index() {
        refused(Error::VariantIndexTooLarge)
    } else {
        wrote(seq![index as u8])
    }
}

/// Encoding the number of elements of a sequence.
pub open spec fn write_seq_len(len: nat) -> Written {
    if len > max_prefixed_len() {
        refused(Error::SequenceTooLong)
    } else {
        wrote(u32_bytes(len as u32))
    }
}

/// Encoding the number of pairs of a map.
pub open spec fn write_map_len(len: nat) -> Written {
    if len > max_prefixed_len() {
        refused(Error::MapTooLong)
    } else {
        wrote(u32_bytes(len as u32))
    }
}

/// Encoding values one after the other.
pub open spec fn write_all(items: Seq<ValueView>) -> Written
    decreases items, 0nat,
{
    if items.len() == 0 {
        wrote(Seq::empty())
    } else {
        followed_by(write_value(items[0]), write_all(items.skip(1)))
    }
}

/// Encoding pairs one after the other, each key before its value.
pub open spec fn write_pairs(pairs: Seq<(ValueView, ValueView)>) -> Written
    decreases pairs, 0nat,
{
    if pairs.len() == 0 {
        wrote(Seq::empty())
    } else {
        followed_by(
            followed_by(write_value(pairs[0].0), write_value(pairs[0].1)),
            write_pairs(pairs.skip(1)),
        )
    }
}

/// Encoding the payload of a variant.
pub open spec fn write_payload(payload: PayloadView) -> Written
    decreases payload, 0nat,
{
    match payload {
        PayloadView::Unit => wrote(Seq::empty()),
        PayloadView::NewType(inner) => write_value(*inner),
        PayloadView::Tuple(items) => write_all(items),
        PayloadView::Struct(items) => write_all(items),
    }
}

/// Encoding a value.
pub open spec fn write_value(v: ValueView) -> Written
    decreases v, 0nat,
{
    match v {
        ValueView::Primitive(p) => wrote(primitive_bytes(p)),
        ValueView::Str(chars) => write_str(chars),
        ValueView::Bytes(bytes) => write_bytes(bytes),
        ValueView::Absent => wrote(seq![0u8]),
        ValueView::Present(inner) => followed_by(wrote(seq![1u8]), write_value(*inner)),
        ValueView::NewType(inner) => write_value(*inner),
        ValueView::Sequence(items) => followed_by(write_seq_len(items.len()), write_all(items)),
        ValueView::Tuple(items) => write_all(items),
        ValueView::Mapping(pairs) => followed_by(write_map_len(pairs.len()), write_pairs(pairs)),
        ValueView::Struct(items) => write_all(items),
        ValueView::Variant(index, payload) => followed_by(
            write_variant_tag(index),
            write_payload(payload),
        ),
    }
}

/// Whether a value can be encoded: no string, sequence or map in it is too
/// long for its prefix, and no variant index too large for its tag.
pub open spec fn encodable(v: ValueView) -> bool {
    write_value(v).error is None
}

/// The bytes of a value that can be encoded.
pub open spec fn encoding(v: ValueView) -> Seq<u8> {
    write_value(v).bytes
}

/// Steps in a row may be grouped either way.
pub proof fn lemma_followed_by_assoc(a: Written, b: Written, c: Written)
    ensures
        followed_by(followed_by(a, b), c) == followed_by(a, followed_by(b, c)),
{
    if a.error is None && b.error is None {
        assert((a.bytes + b.bytes) + c.bytes =~= a.bytes + (b.bytes + c.bytes));
    }
}

/// Encoding two runs of values one after the other is encoding the first
/// run and then the second.
pub proof fn lemma_write_all_concat(a: Seq<ValueView>, b: Seq<ValueView>)
    ensures
        write_all(a + b) == followed_by(write_all(a), write_all(b)),
    decreases a.len(),
{
    if a.len() == 0 {
        assert(a + b =~= b);
        assert(Seq::<u8>::empty() + write_all(b).bytes =~= write_all(b).bytes);
    } else {
        assert((a + b)[0] == a[0]);
        assert((a + b).skip(1) =~= a.skip(1) + b);
        lemma_write_all_concat(a.skip(1), b);
        lemma_followed_by_assoc(write_value(a[0]), write_all(a.skip(1)), write_all(b));
    }
}

/// Encoding one value alone.
pub proof fn lemma_write_all_single(v: ValueView)
    ensures
        write_all(seq![v]) == write_value(v),
{
    let w = write_value(v);
    assert(seq![v].skip(1) =~= Seq::<ValueView>::empty());
    assert(write_all(seq![v].skip(1)) == wrote(Seq::empty()));
    assert(w.bytes + Seq::<u8>::empty() =~= w.bytes);
}

/// Encoding the first `k + 1` of some values is encoding the first `k` and
/// then the next one.
pub proof fn lemma_write_all_step(items: Seq<ValueView>, k: int)
    requires
        0 <= k < items.len(),
    ensures
        write_all(items.take(k + 1)) == followed_by(
            write_all(items.take(k)),
            write_value(items[k]),
        ),
        write_all(items) == followed_by(
            write_all(items.take(k + 1)),
            write_all(items.skip(k + 1)),
        ),
{
    assert(items.take(k + 1) =~= items.take(k) + seq![items[k]]);
    lemma_write_all_concat(items.take(k), seq![items[k]]);
    lemma_write_all_single(items[k]);
    assert(items =~= items.take(k + 1) + items.skip(k + 1));
    lemma_write_all_concat(items.take(k + 1), items.skip(k + 1));
}

/// Encoding two runs of pairs one after the other is encoding the first run
/// and then the second.
pub proof fn lemma_write_pairs_concat(
    a: Seq<(ValueView, ValueView)>,
    b: Seq<(ValueView, ValueView)>,
)
    ensures
        write_pairs(a + b) == followed_by(write_pairs(a), write_pairs(b)),
    decreases a.len(),
{
    if a.len() == 0 {
        assert(a + b =~= b);
        assert(Seq::<u8>::empty() + write_pairs(b).bytes =~= write_pairs(b).bytes);
    } else {
        assert((a + b)[0] == a[0]);
        assert((a + b).skip(1) =~= a.skip(1) + b);
        lemma_write_pairs_concat(a.skip(1), b);
        lemma_followed_by_assoc(
            followed_by(write_value(a[0].0), write_value(a[0].1)),
            write_pairs(a.skip(1)),
            write_pairs(b),
        );
    }
}

/// Encoding the first `k + 1` of some pairs is encoding the first `k` and
/// then the key and the value of the next one.
pub proof fn lemma_write_pairs_step(pairs: Seq<(ValueView, ValueView)>, k: int)
    requires
        0 <= k < pairs.len(),
    ensures
        write_pairs(pairs.take(k + 1)) == followed_by(
            write_pairs(pairs.take(k)),
            followed_by(write_value(pairs[k].0), write_value(pairs[k].1)),
        ),
        write_pairs(pairs) == followed_by(
            write_pairs(pairs.take(k + 1)),
            write_pairs(pairs.skip(k + 1)),
        ),
{
    let one = seq![pairs[k]];
    let w = followed_by(write_value(pairs[k].0), write_value(pairs[k].1));
    assert(pairs.take(k + 1) =~= pairs.take(k) + one);
    lemma_write_pairs_concat(pairs.take(k), one);
    assert(one.skip(1) =~= Seq::<(ValueView, ValueView)>::empty());
    assert(write_pairs(one.skip(1)) == wrote(Seq::empty()));
    assert(w.bytes + Seq::<u8>::empty() =~= w.bytes);
    assert(write_pairs(one) == w);
    assert(pairs =~= pairs.take(k + 1) + pairs.skip(k + 1));
    lemma_write_pairs_concat(pairs.take(k + 1), pairs.skip(k + 1));
}

/// `char::encode_utf8`: the UTF-8 encoding of the character, one to four
/// bytes.
#[verifier::external_body]
pub(crate) fn char_to_utf8(v: char) -> (bytes: Vec<u8>)
    ensures
        bytes@ == encode_utf8(seq![v]),
{
    let mut buffer = [0u8; 4];
    v.encode_utf8(&mut buffer).as_bytes().to_vec()
}

/// An encoder: the bytes written so far. Bytes are only ever appended.
pub struct BinSerializer {
    out: Vec<u8>,
}

impl View for BinSerializer {
    type V = Seq<u8>;

    /// The bytes written so far.
    closed spec fn view(&self) -> Seq<u8> {
        self.out@
    }
}

impl Default for BinSerializer {
    /// An encoder that has written nothing.
    fn default() -> (s: Self)
        ensures
            s@ == Seq::<u8>::empty(),
    {
        BinSerializer { out: Vec::new() }
    }
}

impl From<BinSerializer> for Vec<u8> {
    /// The bytes that the encoder has written.
    fn from(v: BinSerializer) -> (bytes: Self)
        ensures
            bytes@ == v@,
    {
        v.out
    }
}

impl vstd::std_specs::convert::FromSpecImpl<BinSerializer> for Vec<u8> {
    open spec fn obeys_from_spec() -> bool {
        true
    }

    open spec fn from_spec(v: BinSerializer) -> Self {
        v.buffer()
    }
}

impl BinSerializer {
    /// The buffer that the encoder has filled.
    pub closed spec fn buffer(self) -> Vec<u8> {
        self.out
    }

    /// The view of the encoder is the content of its buffer.
    pub broadcast proof fn lemma_buffer_view(self)
        ensures
            #[trigger] self.buffer()@ == self@,
    {
    }

    /// Appends `bytes`.
    fn put(&mut self, bytes: &[u8])
        ensures
            final(self)@ == old(self)@ + bytes@,
    {
        self.out.extend_from_slice(bytes);
        assert(self.out@ =~= old(self).out@ + bytes@);
    }

    /// A boolean: one byte, 1 for `true` and 0 for `false`.
    pub fn serialize_bool(&mut self, v: bool) -> (r: Result<(), Error>)
        ensures
            r is Ok,
            final(self)@ == old(self)@.push(bool_byte(v)),
    {
        self.out.push(if v { 1 } else { 0 });
        Ok(())
    }

    /// A signed byte: its two's complement.
    pub fn serialize_i8(&mut self, v: i8) -> (r: Result<(), Error>)
        ensures
            r is Ok,
            final(self)@ == old(self)@.push(i8_bits(v)),
    {
        self.serialize_u8(i8_to_bits(v))
    }

    /// A signed 16-bit integer: the two bytes of its two's complement in the
    /// order of the host.
    pub fn serialize_i16(&mut self, v: i16) -> (r: Result<(), Error>)
        ensures
            r is Ok,
            final(self)@ == old(self)@ + u16_bytes(i16_bits(v)),
    {
        self.serialize_u16(i16_to_bits(v))
    }

    /// A signed 32-bit integer: the four bytes of its two's complement in
    /// the order of the host.
    pub fn serialize_i32(&mut self, v: i32) -> (r: Result<(), Error>)
        ensures
            r is Ok,
            final(self)@ == old(self)@ + u32_bytes(i32_bits(v)),
    {
        self.serialize_u32(i32_to_bits(v))
    }

    /// A signed 64-bit integer: the eight bytes of its two's complement in
    /// the order of the host.
    pub fn serialize_i64(&mut self, v: i64) -> (r: Result<(), Error>)
        ensures
            r is Ok,
            final(self)@ == old(self)@ + u64_bytes(i64_bits(v)),
    {
        self.serialize_u64(i64_to_bits(v))
    }

    /// A byte: itself.
    pub fn serialize_u8(&mut self, v: u8) -> (r: Result<(), Error>)
        ensures
            r is Ok,
            final(self)@ == old(self)@.push(v),
    {
        self.out.push(v);
        Ok(())
    }

    /// An unsigned 16-bit integer: its two bytes in the order of the host.
    pub fn serialize_u16(&mut self, v: u16) -> (r: Result<(), Error>)
        ensures
            r is Ok,
            final(self)@ == old(self)@ + u16_bytes(v),
    {
        let bytes = u16_to_ne_bytes(v);
        self.put(bytes.as_slice());
        Ok(())
    }

    /// An unsigned 32-bit integer: its four bytes in the order of the host.
    pub fn serialize_u32(&mut self, v: u32) -> (r: Result<(), Error>)
        ensures
            r is Ok,
            final(self)@ == old(self)@ + u32_bytes(v),
    {
        let bytes = u32_to_ne_bytes(v);
        self.put(bytes.as_slice());
        Ok(())
    }

    /// An unsigned 64-bit integer: its eight bytes in the order of the host.
    pub fn serialize_u64(&mut self, v: u64) -> (r: Result<(), Error>)
        ensures
            r is Ok,
            final(self)@ == old(self)@ + u64_bytes(v),
    {
        let bytes = u64_to_ne_bytes(v);
        self.put(bytes.as_slice());
        Ok(())
    }

    /// A 32-bit float, given by its bit pattern: written as that unsigned
    /// integer.
    pub fn serialize_f32(&mut self, bits: u32) -> (r: Result<(), Error>)
        ensures
            r is Ok,
            final(self)@ == old(self)@ + u32_bytes(bits),
    {
        self.serialize_u32(bits)
    }

    /// A 64-bit float, given by its bit pattern: written as that unsigned
    /// integer.
    pub fn serialize_f64(&mut self, bits: u64) -> (r: Result<(), Error>)
        ensures
            r is Ok,
            final(self)@ == old(self)@ + u64_bytes(bits),
    {
        self.serialize_u64(bits)
    }

    /// A character: its UTF-8 encoding, without a length before it.
    pub fn serialize_char(&mut self, v: char) -> (r: Result<(), Error>)
        ensures
            r is Ok,
            final(self)@ == old(self)@ + encode_utf8(seq![v]),
    {
        let bytes = char_to_utf8(v);
        self.put(bytes.as_slice());
        Ok(())
    }

    /// A string: the number of its bytes as a `u32`, then its UTF-8 bytes.
    /// A string of more bytes than a `u32` can count is refused, and nothing
    /// is written.
    pub fn serialize_str(&mut self, v: &str) -> (r: Result<(), Error>)
        ensures
            reports(r, write_str(v@).error),
            final(self)@ == old(self)@ + write_str(v@).bytes,
    {
        let bytes = v.as_bytes();
        let len = bytes.len();
        if len > u32::MAX as usize {
            assert(self@ =~= old(self)@ + Seq::<u8>::empty());
            return Err(Error::StringTooLong);
        }
        let _ = self.serialize_u32(len as u32);
        self.put(bytes);
        assert(self@ =~= old(self)@ + (u32_bytes(len as u32) + bytes@));
        Ok(())
    }

    /// A byte buffer: the number of its bytes as a `u64`, then the bytes. A
    /// buffer of more bytes than a `u64` can count would be refused; no
    /// slice is that long.
    pub fn serialize_bytes(&mut self, v: &[u8]) -> (r: Result<(), Error>)
        ensures
            reports(r, write_bytes(v@).error),
            final(self)@ == old(self)@ + write_bytes(v@).bytes,
    {
        let len = v.len();
        if len as u128 > u64::MAX as u128 {
            assert(self@ =~= old(self)@ + Seq::<u8>::empty());
            return Err(Error::ByteBufferTooLong);
        }
        let _ = self.serialize_u64(len as u64);
        self.put(v);
        assert(self@ =~= old(self)@ + (u64_bytes(len as u64) + v@));
        Ok(())
    }

    /// The tag of an option: 1 where a value follows, 0 where none does.
    pub fn serialize_option_tag(&mut self, present: bool) -> (r: Result<(), Error>)
        ensures
            r is Ok,
            final(self)@ == old(self)@.push(bool_byte(present)),
    {
        self.serialize_u8(if present { 1 } else { 0 })
    }

    /// An absent option: the tag 0, and nothing after it.
    pub fn serialize_none(&mut self) -> (r: Result<(), Error>)
        ensures
            r is Ok,
            final(self)@ == old(self)@.push(0u8),
    {
        self.serialize_option_tag(false)
    }

    /// The unit value: no bytes.
    pub fn serialize_unit(&mut self) -> (r: Result<(), Error>)
        ensures
            r is Ok,
            final(self)@ == old(self)@,
    {
        Ok(())
    }

    /// A struct without fields: no bytes.
    pub fn serialize_unit_struct(&mut self, _name: &'static str) -> (r: Result<(), Error>)
        ensures
            r is Ok,
            final(self)@ == old(self)@,
    {
        self.serialize_unit()
    }

    /// A variant without payload: its index as one byte. An index above 255
    /// is refused, and nothing is written.
    pub fn serialize_unit_variant(
        &mut self,
        _name: &'static str,
        variant_index: u32,
        _variant: &'static str,
    ) -> (r: Result<(), Error>)
        ensures
            reports(r, write_variant_tag(variant_index).error),
            final(self)@ == old(self)@ + write_variant_tag(variant_index).bytes,
    {
        if variant_index > u8::MAX as u32 {
            assert(self@ =~= old(self)@ + Seq::<u8>::empty());
            Err(Error::VariantIndexTooLarge)
        } else {
            let _ = self.serialize_u8(variant_index as u8);
            assert(self@ =~= old(self)@ + seq![variant_index as u8]);
            Ok(())
        }
    }

    /// The start of a sequence of `len` elements: `len` as a `u32`. The
    /// elements follow, each by `serialize_element`. A sequence of unknown
    /// length, or of more elements than a `u32` can count, is refused, and
    /// nothing is written.
    pub fn serialize_seq(&mut self, len: Option<usize>) -> (r: Result<(), Error>)
        ensures
            len is None ==> r == Err::<(), Error>(Error::SequenceLengthUnknown) && final(self)@
                == old(self)@,
            len is Some ==> reports(r, write_seq_len(len->0 as nat).error) && final(self)@ == old(
                self,
            )@ + write_seq_len(len->0 as nat).bytes,
    {
        if let Some(len) = len {
            if len <= u32::MAX as usize {
                let _ = self.serialize_u32(len as u32);
                Ok(())
            } else {
                assert(self@ =~= old(self)@ + Seq::<u8>::empty());
                Err(Error::SequenceTooLong)
            }
        } else {
            Err(Error::SequenceLengthUnknown)
        }
    }

    /// The start of a tuple: no bytes, for both sides know how many elements
    /// it has.
    pub fn serialize_tuple(&mut self, _len: usize) -> (r: Result<(), Error>)
        ensures
            r is Ok,
            final(self)@ == old(self)@,
    {
        Ok(())
    }

    /// The start of a tuple struct: no bytes.
    pub fn serialize_tuple_struct(&mut self, _name: &'static str, _len: usize) -> (r: Result<
        (),
        Error,
    >)
        ensures
            r is Ok,
            final(self)@ == old(self)@,
    {
        Ok(())
    }

    /// The start of a tuple variant: its index as one byte. The elements
    /// follow. An index above 255 is refused, and nothing is written.
    pub fn serialize_tuple_variant(
        &mut self,
        _name: &'static str,
        variant_index: u32,
        _variant: &'static str,
        _len: usize,
    ) -> (r: Result<(), Error>)
        ensures
            reports(r, write_variant_tag(variant_index).error),
            final(self)@ == old(self)@ + write_variant_tag(variant_index).bytes,
    {
        if variant_index > u8::MAX as u32 {
            assert(self@ =~= old(self)@ + Seq::<u8>::empty());
            Err(Error::VariantIndexTooLarge)
        } else {
            let _ = self.serialize_u8(variant_index as u8);
            assert(self@ =~= old(self)@ + seq![variant_index as u8]);
            Ok(())
        }
    }

    /// The start of a map of `len` pairs: `len` as a `u32`. The pairs
    /// follow, each key by `serialize_key` and its value by
    /// `serialize_value`. A map of unknown length, or of more pairs than a
    /// `u32` can count, is refused, and nothing is written.
    pub fn serialize_map(&mut self, len: Option<usize>) -> (r: Result<(), Error>)
        ensures
            len is None ==> r == Err::<(), Error>(Error::MapLengthUnknown) && final(self)@
                == old(self)@,
            len is Some ==> reports(r, write_map_len(len->0 as nat).error) && final(self)@ == old(
                self,
            )@ + write_map_len(len->0 as nat).bytes,
    {
        if let Some(len) = len {
            if len <= u32::MAX as usize {
                let _ = self.serialize_u32(len as u32);
                Ok(())
            } else {
                assert(self@ =~= old(self)@ + Seq::<u8>::empty());
                Err(Error::MapTooLong)
            }
        } else {
            Err(Error::MapLengthUnknown)
        }
    }

    /// The start of a struct: no bytes, neither the names of the fields nor
    /// their number.
    pub fn serialize_struct(&mut self, _name: &'static str, _len: usize) -> (r: Result<(), Error>)
        ensures
            r is Ok,
            final(self)@ == old(self)@,
    {
        Ok(())
    }

    /// The start of a struct variant: its index as one byte. The fields
    /// follow. An index above 255 is refused, and nothing is written.
    pub fn serialize_struct_variant(
        &mut self,
        _name: &'static str,
        variant_index: u32,
        _variant: &'static str,
        _len: usize,
    ) -> (r: Result<(), Error>)
        ensures
            reports(r, write_variant_tag(variant_index).error),
            final(self)@ == old(self)@ + write_variant_tag(variant_index).bytes,
    {
        if variant_index > u8::MAX as u32 {
            assert(self@ =~= old(self)@ + Seq::<u8>::empty());
            Err(Error::VariantIndexTooLarge)
        } else {
            let _ = self.serialize_u8(variant_index as u8);
            assert(self@ =~= old(self)@ + seq![variant_index as u8]);
            Ok(())
        }
    }

    /// A value of fixed layout.
    pub fn serialize_primitive(&mut self, p: Primitive) -> (r: Result<(), Error>)
        ensures
            r is Ok,
            final(self)@ == old(self)@ + primitive_bytes(p),
    {
        let ghost before = self@;
        let r = match p {
            Primitive::Bool(v) => self.serialize_bool(v),
            Primitive::I8(v) => self.serialize_i8(v),
            Primitive::I16(v) => self.serialize_i16(v),
            Primitive::I32(v) => self.serialize_i32(v),
            Primitive::I64(v) => self.serialize_i64(v),
            Primitive::U8(v) => self.serialize_u8(v),
            Primitive::U16(v) => self.serialize_u16(v),
            Primitive::U32(v) => self.serialize_u32(v),
            Primitive::U64(v) => self.serialize_u64(v),
            Primitive::F32(bits) => self.serialize_f32(bits),
            Primitive::F64(bits) => self.serialize_f64(bits),
            Primitive::Char(c) => self.serialize_char(c),
            Primitive::Unit => self.serialize_unit(),
        };
        assert(self@ =~= before + primitive_bytes(p));
        r
    }

    /// A present option: the tag 1, then the value.
    pub fn serialize_some(&mut self, value: &Value) -> (r: Result<(), Error>)
        ensures
            reports(r, write_value(ValueView::Present(Box::new(value@))).error),
            final(self)@ == old(self)@ + write_value(ValueView::Present(Box::new(value@))).bytes,
        decreases value, 1nat,
    {
        let _ = self.serialize_option_tag(true);
        let r = self.serialize_value(value);
        assert(self@ =~= old(self)@ + followed_by(wrote(seq![1u8]), write_value(value@)).bytes);
        r
    }

    /// A wrapper round one value: the value, and nothing else.
    pub fn serialize_newtype_struct(&mut self, _name: &'static str, value: &Value) -> (r: Result<
        (),
        Error,
    >)
        ensures
            reports(r, write_value(value@).error),
            final(self)@ == old(self)@ + write_value(value@).bytes,
        decreases value, 1nat,
    {
        self.serialize_value(value)
    }

    /// A variant with one value: its index as one byte, then the value. An
    /// index above 255 is refused, and nothing is written.
    pub fn serialize_newtype_variant(
        &mut self,
        name: &'static str,
        variant_index: u32,
        variant: &'static str,
        value: &Value,
    ) -> (r: Result<(), Error>)
        ensures
            reports(r, followed_by(write_variant_tag(variant_index), write_value(value@)).error),
            final(self)@ == old(self)@ + followed_by(
                write_variant_tag(variant_index),
                write_value(value@),
            ).bytes,
        decreases value, 1nat,
    {
        let r = self.serialize_unit_variant(name, variant_index, variant);
        if r.is_err() {
            return r;
        }
        let r = self.serialize_value(value);
        assert(self@ =~= old(self)@ + (seq![variant_index as u8] + write_value(value@).bytes));
        r
    }

    /// An element of a sequence or of a tuple.
    pub fn serialize_element(&mut self, value: &Value) -> (r: Result<(), Error>)
        ensures
            reports(r, write_value(value@).error),
            final(self)@ == old(self)@ + write_value(value@).bytes,
        decreases value, 1nat,
    {
        self.serialize_value(value)
    }

    /// The value of a field of a struct, of a tuple struct or of a variant.
    /// The name of the field is not written.
    pub fn serialize_field(&mut self, value: &Value) -> (r: Result<(), Error>)
        ensures
            reports(r, write_value(value@).error),
            final(self)@ == old(self)@ + write_value(value@).bytes,
        decreases value, 1nat,
    {
        self.serialize_value(value)
    }

    /// A key of a map.
    pub fn serialize_key(&mut self, key: &Value) -> (r: Result<(), Error>)
        ensures
            reports(r, write_value(key@).error),
            final(self)@ == old(self)@ + write_value(key@).bytes,
        decreases key, 1nat,
    {
        self.serialize_value(key)
    }

    /// Elements or fields, one after the other.
    fn serialize_all(&mut self, items: &Vec<Value>) -> (r: Result<(), Error>)
        ensures
            reports(r, write_all(views(items@)).error),
            final(self)@ == old(self)@ + write_all(views(items@)).bytes,
        decreases items, 2nat,
    {
        let ghost all = views(items@);
        let mut i: usize = 0;
        assert(all.take(0) =~= Seq::<ValueView>::empty());
        assert(self@ =~= old(self)@ + Seq::<u8>::empty());
        while i < items.len()
            invariant
                i <= items.len(),
                all == views(items@),
                write_all(all.take(i as int)).error is None,
                self@ == old(self)@ + write_all(all.take(i as int)).bytes,
            decreases items.len() - i,
        {
            let r = self.serialize_element(&items[i]);
            proof {
                assert(all[i as int] == items[i as int]@);
                lemma_write_all_step(all, i as int);
                let head = write_all(all.take(i as int));
                let next = write_value(all[i as int]);
                assert(self@ =~= old(self)@ + (head.bytes + next.bytes));
            }
            if r.is_err() {
                return r;
            }
            i = i + 1;
        }
        assert(all.take(i as int) =~= all);
        self.end()
    }

    /// Pairs, one after the other.
    fn serialize_pairs(&mut self, pairs: &Vec<(Value, Value)>) -> (r: Result<(), Error>)
        ensures
            reports(r, write_pairs(pair_views(pairs@)).error),
            final(self)@ == old(self)@ + write_pairs(pair_views(pairs@)).bytes,
        decreases pairs, 2nat,
    {
        let ghost all = pair_views(pairs@);
        let mut i: usize = 0;
        assert(all.take(0) =~= Seq::<(ValueView, ValueView)>::empty());
        assert(self@ =~= old(self)@ + Seq::<u8>::empty());
        while i < pairs.len()
            invariant
                i <= pairs.len(),
                all == pair_views(pairs@),
                write_pairs(all.take(i as int)).error is None,
                self@ == old(self)@ + write_pairs(all.take(i as int)).bytes,
            decreases pairs.len() - i,
        {
            let pair = &pairs[i];
            proof {
                assert(all[i as int] == (pair.0@, pair.1@));
                lemma_write_pairs_step(all, i as int);
            }
            let ghost head = write_pairs(all.take(i as int));
            let ghost key = write_value(pair.0@);
            let ghost val = write_value(pair.1@);
            let r = self.serialize_key(&pair.0);
            if r.is_err() {
                assert(self@ =~= old(self)@ + (head.bytes + key.bytes));
                return r;
            }
            let r = self.serialize_value(&pair.1);
            assert(self@ =~= old(self)@ + (head.bytes + (key.bytes + val.bytes)));
            if r.is_err() {
                return r;
            }
            i = i + 1;
        }
        assert(all.take(i as int) =~= all);
        self.end()
    }

    /// A value, whatever its shape; as the value of a key of a map, it
    /// follows its key.
    pub fn serialize_value(&mut self, value: &Value) -> (r: Result<(), Error>)
        ensures
            reports(r, write_value(value@).error),
            final(self)@ == old(self)@ + write_value(value@).bytes,
        decreases value, 0nat,
    {
        match value {
            Value::Primitive(p) => self.serialize_primitive(*p),
            Value::Str(s) => self.serialize_str(s.as_str()),
            Value::Bytes(b) => self.serialize_bytes(b.as_slice()),
            Value::Absent => {
                let r = self.serialize_none();
                assert(self@ =~= old(self)@ + seq![0u8]);
                r
            },
            Value::Present(inner) => self.serialize_some(inner),
            Value::NewType(inner) => self.serialize_newtype_struct("", inner),
            Value::Sequence(items) => {
                let r = self.serialize_seq(Some(items.len()));
                if r.is_err() {
                    return r;
                }
                let ghost head = write_seq_len(items@.len());
                let r = self.serialize_all(items);
                assert(self@ =~= old(self)@ + (head.bytes + write_all(views(items@)).bytes));
                r
            },
            Value::Tuple(items) => {
                let _ = self.serialize_tuple(items.len());
                self.serialize_all(items)
            },
            Value::Mapping(pairs) => {
                let r = self.serialize_map(Some(pairs.len()));
                if r.is_err() {
                    return r;
                }
                let ghost head = write_map_len(pairs@.len());
                let r = self.serialize_pairs(pairs);
                assert(self@ =~= old(self)@ + (head.bytes + write_pairs(
                    pair_views(pairs@),
                ).bytes));
                r
            },
            Value::Struct(items) => {
                let _ = self.serialize_struct("", items.len());
                self.serialize_all(items)
            },
            Value::Variant(index, payload) => self.serialize_variant(*index, payload),
        }
    }

    /// A variant of an enum: its index as one byte, then its payload. An
    /// index above 255 is refused, and nothing is written.
    fn serialize_variant(&mut self, index: u32, payload: &Payload) -> (r: Result<(), Error>)
        ensures
            reports(r, followed_by(write_variant_tag(index), write_payload(payload@)).error),
            final(self)@ == old(self)@ + followed_by(
                write_variant_tag(index),
                write_payload(payload@),
            ).bytes,
        decreases payload, 3nat,
    {
        let ghost tag = write_variant_tag(index);
        match payload {
            Payload::Unit => {
                let r = self.serialize_unit_variant("", index, "");
                assert(tag.bytes + Seq::<u8>::empty() =~= tag.bytes);
                r
            },
            Payload::NewType(inner) => self.serialize_newtype_variant("", index, "", inner),
            Payload::Tuple(items) => {
                let r = self.serialize_tuple_variant("", index, "", items.len());
                if r.is_err() {
                    return r;
                }
                let r = self.serialize_all(items);
                assert(self@ =~= old(self)@ + (tag.bytes + write_all(views(items@)).bytes));
                r
            },
            Payload::Struct(items) => {
                let r = self.serialize_struct_variant("", index, "", items.len());
                if r.is_err() {
                    return r;
                }
                let r = self.serialize_all(items);
                assert(self@ =~= old(self)@ + (tag.bytes + write_all(views(items@)).bytes));
                r
            },
        }
    }

    /// The end of a sequence, tuple, map or struct: no bytes.
    pub fn end(&mut self) -> (r: Result<(), Error>)
        ensures
            r is Ok,
            final(self)@ == old(self)@,
    {
        Ok(())
    }
}

} // verus!
