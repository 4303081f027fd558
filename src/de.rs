use vstd::prelude::*;

use crate::error::Error;

verus! {

/// A type that can be decoded from one encoded ASN.1 value.
pub trait Decode: Sized {
    /// Whether `r` is the outcome of decoding `input`.
    spec fn decodes_to(input: Seq<u8>, r: Result<Self, Error>) -> bool;

    /// Decodes the value at the front of `input`.
    fn decode(input: &[u8]) -> (r: Result<Self, Error>)
        ensures
            Self::decodes_to(input@, r),
    ;
}

} // verus!
