//! A compact binary codec that is not self-describing: values are written as
//! bare bytes in the host's byte order, and read back against a declared
//! shape.

pub mod de;
pub mod deserialize;
pub mod ser;
pub mod serialize;
pub mod symmetry;
pub mod value;
pub mod wire;

pub use deserialize::BinDeserializer;
pub use serialize::BinSerializer;

use deserialize::{read_value, viewed};
use serialize::{encodable, encoding, write_value};
use value::{Shape, Value};
use vstd::prelude::*;

verus! {

/// The bytes of `val`, or the first reason for which it cannot be encoded.
pub fn serialize(val: &Value) -> (r: Result<Vec<u8>, ser::Error>)
    ensures
        r is Ok <==> encodable(val@),
        r is Ok ==> r->Ok_0@ == encoding(val@),
        r is Err ==> write_value(val@).error == Some(r->Err_0),
{
    let mut s = BinSerializer::default();
    match s.serialize_value(val) {
        Ok(()) => {
            let bytes: Vec<u8> = s.into();
            assert(bytes@ =~= encoding(val@));
            Ok(bytes)
        },
        Err(e) => Err(e),
    }
}

/// The value of the shape `shape` that `xs` starts with, or the reason for
/// which there is none. Bytes that follow the value are left unread.
pub fn deserialize(shape: &Shape, xs: &[u8]) -> (r: Result<Value, de::Error>)
    ensures
        viewed(r) == read_value(*shape, xs@).result,
{
    let mut d = BinDeserializer::from(xs);
    d.deserialize_value(shape)
}

} // verus!
