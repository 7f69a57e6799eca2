//! The plain value types callers hand to the engine.

use vstd::prelude::*;

verus! {

/// A key as the caller supplies it: an opaque byte string.
#[derive(Clone, Debug)]
pub struct ByteKey(pub Vec<u8>);

/// A value as the engine stores it: a 64-bit integer, typically an offset
/// into an external value log.
#[derive(Clone, Copy, Debug, PartialEq, Eq, Structural)]
pub struct ByteValue(pub u64);

impl Default for ByteKey {
    /// The empty key.
    fn default() -> (k: ByteKey)
        ensures
            k.0@.len() == 0,
    {
        ByteKey(Vec::new())
    }
}

impl Default for ByteValue {
    /// The zero value.
    fn default() -> (v: ByteValue)
        ensures
            v.0 == 0,
    {
        ByteValue(0)
    }
}

/// Either a resolved payload or a place it can be fetched from.
pub enum DataOrOffset {
    Offset(u64),
    Data(Vec<u8>),
}

} // verus!
