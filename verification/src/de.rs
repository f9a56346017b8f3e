//! What can go wrong while decoding.

pub use crate::deserialize::Error;
