//! Binary-safe path holder.

use vstd::prelude::*;

verus! {

/// A filesystem path exactly as the backup stored it: a byte string,
/// possibly not valid UTF-8. The byte view is authoritative.
pub struct RawPath {
    bytes: Vec<u8>,
}

impl View for RawPath {
    type V = Seq<u8>;

    closed spec fn view(&self) -> Seq<u8> {
        self.bytes@
    }
}

impl RawPath {
    /// Wraps the given bytes.
    pub fn from_bytes(bytes: Vec<u8>) -> (r: RawPath)
        ensures
            r@ == bytes@,
    {
        RawPath { bytes }
    }

    /// The stored bytes.
    pub fn as_bytes(&self) -> (r: &[u8])
        ensures
            r@ == self@,
    {
        self.bytes.as_slice()
    }
}

} // verus!
