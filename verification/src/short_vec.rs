//! A vector serialized with a one-byte length prefix, for compact wire
//! encodings of short sequences.
use vstd::prelude::*;

verus! {

/// A vector whose wire encoding carries a single-byte length.
#[derive(Debug, Clone)]
pub struct ShortVec<T>(pub Vec<T>);

/// Reads the one-byte length prefix: the decoded length and how many bytes
/// it consumed.
pub fn decode_len(bytes: &[u8]) -> (r: (usize, usize))
    requires
        bytes@.len() >= 1,
    ensures
        r.0 == bytes@[0] as usize,
        r.1 == 1,
{
    let short_len: u8 = bytes[0];
    (short_len as usize, 1)
}

} // verus!
