//! The byte buffers that frames carry: `bytes::Bytes`, seen through the
//! sequence of bytes it holds.

use bytes::Bytes;
use vstd::prelude::*;

verus! {

#[verifier::external_type_specification]
#[verifier::external_body]
pub struct ExBytes(Bytes);

/// The bytes that a `Bytes` buffer holds, in order.
pub uninterp spec fn bytes_view(b: Bytes) -> Seq<u8>;

/// `Bytes::copy_from_slice`: the new buffer holds a copy of `data`.
pub assume_specification[ Bytes::copy_from_slice ](data: &[u8]) -> (b: Bytes)
    ensures
        bytes_view(b) == data@,
;

/// `Bytes::clone`: the clone holds the same bytes.
pub assume_specification[ <Bytes as Clone>::clone ](b: &Bytes) -> (c: Bytes)
    ensures
        bytes_view(c) == bytes_view(*b),
;

/// `Bytes::deref`: the slice shows exactly the bytes of the buffer.
pub assume_specification[ <Bytes as core::ops::Deref>::deref ](b: &Bytes) -> (s: &[u8])
    ensures
        s@ == bytes_view(*b),
;

} // verus!
