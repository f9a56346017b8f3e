//! The byte layout of fixed-width integers.
//!
//! An integer of `n` bytes is written as its `n` base-256 digits, in the
//! order of the host: least significant digit first on a little-endian
//! host, most significant digit first on a big-endian one. Signed integers
//! are written as their two's complement.
//!
//! Which of the two orders the host has is `vstd::endian::endianness()`.
//! Nothing here depends on which it is: what is written in one order is read
//! back in the same.

use vstd::endian::{endianness, Endian};
use vstd::prelude::*;

verus! {

/// 256 to the power `width`: the number of values that `width` bytes hold.
pub open spec fn radix_pow(width: nat) -> nat
    decreases width,
{
    if width == 0 {
        1
    } else {
        256 * radix_pow((width - 1) as nat)
    }
}

/// The `width` least significant base-256 digits of `x`, least significant
/// first.
pub open spec fn le_digits(x: nat, width: nat) -> Seq<u8>
    decreases width,
{
    if width == 0 {
        Seq::empty()
    } else {
        seq![(x % 256) as u8] + le_digits(x / 256, (width - 1) as nat)
    }
}

/// The number whose base-256 digits, least significant first, are `digits`.
pub open spec fn le_number(digits: Seq<u8>) -> nat
    decreases digits.len(),
{
    if digits.len() == 0 {
        0
    } else {
        digits[0] as nat + 256 * le_number(digits.skip(1))
    }
}

/// The `width` least significant base-256 digits of `x` in the order of the
/// host.
pub open spec fn native_digits(x: nat, width: nat) -> Seq<u8> {
    match endianness() {
        Endian::Little => le_digits(x, width),
        Endian::Big => le_digits(x, width).reverse(),
    }
}

/// The number whose base-256 digits, in the order of the host, are `digits`.
pub open spec fn native_number(digits: Seq<u8>) -> nat {
    match endianness() {
        Endian::Little => le_number(digits),
        Endian::Big => le_number(digits.reverse()),
    }
}

/// The two bytes of a `u16` in the order of the host.
pub open spec fn u16_bytes(v: u16) -> Seq<u8> {
    native_digits(v as nat, 2)
}

/// The four bytes of a `u32` in the order of the host.
pub open spec fn u32_bytes(v: u32) -> Seq<u8> {
    native_digits(v as nat, 4)
}

/// The eight bytes of a `u64` in the order of the host.
pub open spec fn u64_bytes(v: u64) -> Seq<u8> {
    native_digits(v as nat, 8)
}

/// The `u16` that two bytes in the order of the host stand for.
pub open spec fn u16_value(bytes: Seq<u8>) -> u16
    recommends
        bytes.len() == 2,
{
    native_number(bytes) as u16
}

/// The `u32` that four bytes in the order of the host stand for.
pub open spec fn u32_value(bytes: Seq<u8>) -> u32
    recommends
        bytes.len() == 4,
{
    native_number(bytes) as u32
}

/// The `u64` that eight bytes in the order of the host stand for.
pub open spec fn u64_value(bytes: Seq<u8>) -> u64
    recommends
        bytes.len() == 8,
{
    native_number(bytes) as u64
}

/// The two's complement of an `i8`.
pub open spec fn i8_bits(v: i8) -> u8 {
    if v >= 0 {
        v as u8
    } else {
        (v + 0x100) as u8
    }
}

/// The two's complement of an `i16`.
pub open spec fn i16_bits(v: i16) -> u16 {
    if v >= 0 {
        v as u16
    } else {
        (v + 0x1_0000) as u16
    }
}

/// The two's complement of an `i32`.
pub open spec fn i32_bits(v: i32) -> u32 {
    if v >= 0 {
        v as u32
    } else {
        (v + 0x1_0000_0000) as u32
    }
}

/// The two's complement of an `i64`.
pub open spec fn i64_bits(v: i64) -> u64 {
    if v >= 0 {
        v as u64
    } else {
        (v + 0x1_0000_0000_0000_0000) as u64
    }
}

/// The `i8` whose two's complement is `bits`.
pub open spec fn i8_of_bits(bits: u8) -> i8 {
    if bits < 0x80 {
        bits as i8
    } else {
        (bits - 0x100) as i8
    }
}

/// The `i16` whose two's complement is `bits`.
pub open spec fn i16_of_bits(bits: u16) -> i16 {
    if bits < 0x8000 {
        bits as i16
    } else {
        (bits - 0x1_0000) as i16
    }
}

/// The `i32` whose two's complement is `bits`.
pub open spec fn i32_of_bits(bits: u32) -> i32 {
    if bits < 0x8000_0000 {
        bits as i32
    } else {
        (bits - 0x1_0000_0000) as i32
    }
}

/// The `i64` whose two's complement is `bits`.
pub open spec fn i64_of_bits(bits: u64) -> i64 {
    if bits < 0x8000_0000_0000_0000 {
        bits as i64
    } else {
        (bits - 0x1_0000_0000_0000_0000) as i64
    }
}

/// `width` digits are `width` bytes.
pub proof fn lemma_le_digits_len(x: nat, width: nat)
    ensures
        le_digits(x, width).len() == width,
    decreases width,
{
    if width > 0 {
        lemma_le_digits_len(x / 256, (width - 1) as nat);
    }
}

/// A number that fits in `width` bytes is read back from its digits.
pub proof fn lemma_le_number_of_digits(x: nat, width: nat)
    requires
        x < radix_pow(width),
    ensures
        le_number(le_digits(x, width)) == x,
    decreases width,
{
    if width > 0 {
        let rest = le_digits(x / 256, (width - 1) as nat);
        let all = le_digits(x, width);
        lemma_le_digits_len(x / 256, (width - 1) as nat);
        assert(all.skip(1) =~= rest);
        lemma_le_number_of_digits(x / 256, (width - 1) as nat);
    }
}

/// The number of some digits fits in as many bytes, and its digits are
/// those digits.
pub proof fn lemma_le_digits_of_number(digits: Seq<u8>)
    ensures
        le_number(digits) < radix_pow(digits.len()),
        le_digits(le_number(digits), digits.len()) == digits,
    decreases digits.len(),
{
    if digits.len() > 0 {
        let tail = digits.skip(1);
        let first = digits[0] as nat;
        let rest = le_number(tail);
        lemma_le_digits_of_number(tail);
        let x = le_number(digits);
        assert(x == first + 256 * rest);
        assert(x % 256 == first && x / 256 == rest) by {
            lemma_split_digit(first, rest);
        }
        assert(radix_pow(digits.len()) == 256 * radix_pow(tail.len()));
        let again = le_digits(x, digits.len());
        assert(again == seq![first as u8] + le_digits(rest, tail.len()));
        assert(again =~= digits);
    } else {
        assert(le_digits(0, 0) =~= digits);
    }
}

/// A digit below 256 and the digits above it part again by division.
proof fn lemma_split_digit(first: nat, rest: nat)
    requires
        first < 256,
    ensures
        (first + 256 * rest) % 256 == first,
        (first + 256 * rest) / 256 == rest,
{
}

/// `width` digits in the order of the host are `width` bytes, and a number
/// that fits in them is read back from them.
pub proof fn lemma_native_number_of_digits(x: nat, width: nat)
    requires
        x < radix_pow(width),
    ensures
        native_digits(x, width).len() == width,
        native_number(native_digits(x, width)) == x,
{
    lemma_le_digits_len(x, width);
    lemma_le_number_of_digits(x, width);
    let d = le_digits(x, width);
    assert(d.reverse().reverse() =~= d);
}

/// The number of some bytes in the order of the host fits in as many bytes,
/// and its digits in that order are those bytes.
pub proof fn lemma_native_digits_of_number(digits: Seq<u8>)
    ensures
        native_number(digits) < radix_pow(digits.len()),
        native_digits(native_number(digits), digits.len()) == digits,
{
    lemma_le_digits_of_number(digits);
    lemma_le_digits_of_number(digits.reverse());
    assert(digits.reverse().reverse() =~= digits);
}

/// The numbers of values that two, four and eight bytes hold.
pub proof fn lemma_radix_pow_values()
    ensures
        radix_pow(1) == 0x100,
        radix_pow(2) == 0x1_0000,
        radix_pow(4) == 0x1_0000_0000,
        radix_pow(8) == 0x1_0000_0000_0000_0000,
{
    reveal_with_fuel(radix_pow, 9);
}

/// A `u16` takes two bytes and is read back from them.
pub proof fn lemma_u16_round_trip(v: u16)
    ensures
        u16_bytes(v).len() == 2,
        u16_value(u16_bytes(v)) == v,
{
    lemma_radix_pow_values();
    lemma_native_number_of_digits(v as nat, 2);
}

/// A `u32` takes four bytes and is read back from them.
pub proof fn lemma_u32_round_trip(v: u32)
    ensures
        u32_bytes(v).len() == 4,
        u32_value(u32_bytes(v)) == v,
{
    lemma_radix_pow_values();
    lemma_native_number_of_digits(v as nat, 4);
}

/// A `u64` takes eight bytes and is read back from them.
pub proof fn lemma_u64_round_trip(v: u64)
    ensures
        u64_bytes(v).len() == 8,
        u64_value(u64_bytes(v)) == v,
{
    lemma_radix_pow_values();
    lemma_native_number_of_digits(v as nat, 8);
}

/// Any two bytes are the bytes of the `u16` that they stand for.
pub proof fn lemma_u16_bytes_of_value(bytes: Seq<u8>)
    requires
        bytes.len() == 2,
    ensures
        u16_bytes(u16_value(bytes)) == bytes,
{
    lemma_radix_pow_values();
    lemma_native_digits_of_number(bytes);
}

/// Any four bytes are the bytes of the `u32` that they stand for.
pub proof fn lemma_u32_bytes_of_value(bytes: Seq<u8>)
    requires
        bytes.len() == 4,
    ensures
        u32_bytes(u32_value(bytes)) == bytes,
{
    lemma_radix_pow_values();
    lemma_native_digits_of_number(bytes);
}

/// Any eight bytes are the bytes of the `u64` that they stand for.
pub proof fn lemma_u64_bytes_of_value(bytes: Seq<u8>)
    requires
        bytes.len() == 8,
    ensures
        u64_bytes(u64_value(bytes)) == bytes,
{
    lemma_radix_pow_values();
    lemma_native_digits_of_number(bytes);
}

/// An `i8` is read back from its two's complement.
pub proof fn lemma_i8_round_trip(v: i8)
    ensures
        i8_of_bits(i8_bits(v)) == v,
{
}

/// Any `u8` is the two's complement of the `i8` that it stands for.
pub proof fn lemma_i8_bits_of_value(bits: u8)
    ensures
        i8_bits(i8_of_bits(bits)) == bits,
{
}

/// An `i16` is read back from its two's complement.
pub proof fn lemma_i16_round_trip(v: i16)
    ensures
        i16_of_bits(i16_bits(v)) == v,
{
}

/// Any `u16` is the two's complement of the `i16` that it stands for.
pub proof fn lemma_i16_bits_of_value(bits: u16)
    ensures
        i16_bits(i16_of_bits(bits)) == bits,
{
}

/// An `i32` is read back from its two's complement.
pub proof fn lemma_i32_round_trip(v: i32)
    ensures
        i32_of_bits(i32_bits(v)) == v,
{
}

/// Any `u32` is the two's complement of the `i32` that it stands for.
pub proof fn lemma_i32_bits_of_value(bits: u32)
    ensures
        i32_bits(i32_of_bits(bits)) == bits,
{
}

/// An `i64` is read back from its two's complement.
pub proof fn lemma_i64_round_trip(v: i64)
    ensures
        i64_of_bits(i64_bits(v)) == v,
{
}

/// Any `u64` is the two's complement of the `i64` that it stands for.
pub proof fn lemma_i64_bits_of_value(bits: u64)
    ensures
        i64_bits(i64_of_bits(bits)) == bits,
{
}

/// The two's complement of an `i8`: the same eight bits, read as unsigned.
pub fn i8_to_bits(v: i8) -> (bits: u8)
    ensures
        bits == i8_bits(v),
{
    assert(v as u8 == if v >= 0 {
        v as u8
    } else {
        (v + 0x100) as u8
    }) by (bit_vector);
    v as u8
}

/// The two's complement of an `i16`: the same sixteen bits, read as
/// unsigned.
pub fn i16_to_bits(v: i16) -> (bits: u16)
    ensures
        bits == i16_bits(v),
{
    assert(v as u16 == if v >= 0 {
        v as u16
    } else {
        (v + 0x1_0000) as u16
    }) by (bit_vector);
    v as u16
}

/// The two's complement of an `i32`: the same thirty-two bits, read as
/// unsigned.
pub fn i32_to_bits(v: i32) -> (bits: u32)
    ensures
        bits == i32_bits(v),
{
    assert(v as u32 == if v >= 0 {
        v as u32
    } else {
        (v + 0x1_0000_0000) as u32
    }) by (bit_vector);
    v as u32
}

/// The two's complement of an `i64`: the same sixty-four bits, read as
/// unsigned.
pub fn i64_to_bits(v: i64) -> (bits: u64)
    ensures
        bits == i64_bits(v),
{
    assert(v as u64 == if v >= 0 {
        v as u64
    } else {
        (v + 0x1_0000_0000_0000_0000) as u64
    }) by (bit_vector);
    v as u64
}

/// The `i8` with the bits of `bits`.
pub fn i8_from_bits(bits: u8) -> (v: i8)
    ensures
        v == i8_of_bits(bits),
{
    assert(bits as i8 == if bits < 0x80 {
        bits as i8
    } else {
        (bits - 0x100) as i8
    }) by (bit_vector);
    bits as i8
}

/// The `i16` with the bits of `bits`.
pub fn i16_from_bits(bits: u16) -> (v: i16)
    ensures
        v == i16_of_bits(bits),
{
    assert(bits as i16 == if bits < 0x8000 {
        bits as i16
    } else {
        (bits - 0x1_0000) as i16
    }) by (bit_vector);
    bits as i16
}

/// The `i32` with the bits of `bits`.
pub fn i32_from_bits(bits: u32) -> (v: i32)
    ensures
        v == i32_of_bits(bits),
{
    assert(bits as i32 == if bits < 0x8000_0000 {
        bits as i32
    } else {
        (bits - 0x1_0000_0000) as i32
    }) by (bit_vector);
    bits as i32
}

/// The `i64` with the bits of `bits`.
pub fn i64_from_bits(bits: u64) -> (v: i64)
    ensures
        v == i64_of_bits(bits),
{
    assert(bits as i64 == if bits < 0x8000_0000_0000_0000 {
        bits as i64
    } else {
        (bits - 0x1_0000_0000_0000_0000) as i64
    }) by (bit_vector);
    bits as i64
}

/// `u16::to_ne_bytes`: the two bytes of the value as they lie in memory,
/// that is its two base-256 digits in the order of the host.
#[verifier::external_body]
pub(crate) fn u16_to_ne_bytes(v: u16) -> (bytes: [u8; 2])
    ensures
        bytes@ == u16_bytes(v),
{
    v.to_ne_bytes()
}

/// `u32::to_ne_bytes`: the four bytes of the value as they lie in memory,
/// that is its four base-256 digits in the order of the host.
#[verifier::external_body]
pub(crate) fn u32_to_ne_bytes(v: u32) -> (bytes: [u8; 4])
    ensures
        bytes@ == u32_bytes(v),
{
    v.to_ne_bytes()
}

/// `u64::to_ne_bytes`: the eight bytes of the value as they lie in memory,
/// that is its eight base-256 digits in the order of the host.
#[verifier::external_body]
pub(crate) fn u64_to_ne_bytes(v: u64) -> (bytes: [u8; 8])
    ensures
        bytes@ == u64_bytes(v),
{
    v.to_ne_bytes()
}

/// `u16::from_ne_bytes`: the value whose memory representation is the two
/// bytes, that is the number with these digits in the order of the host.
#[verifier::external_body]
pub(crate) fn u16_from_ne_bytes(bytes: [u8; 2]) -> (v: u16)
    ensures
        v == u16_value(bytes@),
{
    u16::from_ne_bytes(bytes)
}

/// `u32::from_ne_bytes`: the value whose memory representation is the four
/// bytes, that is the number with these digits in the order of the host.
#[verifier::external_body]
pub(crate) fn u32_from_ne_bytes(bytes: [u8; 4]) -> (v: u32)
    ensures
        v == u32_value(bytes@),
{
    u32::from_ne_bytes(bytes)
}

/// `u64::from_ne_bytes`: the value whose memory representation is the
/// eight bytes, that is the number with these digits in the order of the
/// host.
#[verifier::external_body]
pub(crate) fn u64_from_ne_bytes(bytes: [u8; 8]) -> (v: u64)
    ensures
        v == u64_value(bytes@),
{
    u64::from_ne_bytes(bytes)
}

} // verus!
