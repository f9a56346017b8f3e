//! What can go wrong while encoding.

pub use crate::serialize::Error;
